//! Round trips and exact encodings of the bitmap, record and queue codecs.

use aitch::bitmap::{encode_bitmap, parse_bitmap, init_bitmap};
use aitch::codec::{
    encode_record, encode_queue, parse_record, parse_queue, parse_request, parse_env_line,
    parse_count, parse_count_list,
};
use aitch::job::{EnvPair, JobRecord};

fn pending_record() -> JobRecord {
    JobRecord {
        id: 7,
        nslots: vec![2, 0],
        command: "sleep 5".to_string(),
        env: vec![
            EnvPair { name: "FOO".to_string(), value: "foo".to_string() },
            EnvPair { name: "BAR".to_string(), value: "bar".to_string() },
        ],
        out: "7.out".to_string(),
        err: "7.err".to_string(),
        append: false,
        deps: vec![3, 5],
        assigned: vec![],
        pid: None,
    }
}

fn running_record() -> JobRecord {
    JobRecord {
        id: 12,
        nslots: vec![1, 2],
        command: "touch done".to_string(),
        env: vec![],
        out: String::new(),
        err: String::new(),
        append: true,
        deps: vec![],
        assigned: vec![vec![1], vec![0, 1]],
        pid: Some(4242),
    }
}

#[test]
fn pending_record_lines_are_exact() {
    let lines = encode_record(&pending_record());
    assert_eq!(lines.len(), 10);
    assert_eq!(lines[0], "7");
    assert_eq!(lines[1], "2,0");
    assert_eq!(lines[2], "sleep 5");
    assert_eq!(lines[3], "FOO=foo BAR=bar");
    assert_eq!(lines[4], "7.out");
    assert_eq!(lines[5], "7.err");
    assert_eq!(lines[6], "false");
    assert_eq!(lines[7], "3 5");
    assert_eq!(lines[8], "");
    assert_eq!(lines[9], "");
}

#[test]
fn running_record_lines_are_exact() {
    let lines = encode_record(&running_record());
    assert_eq!(lines.len(), 10);
    assert_eq!(lines[0], "12");
    assert_eq!(lines[1], "1,2");
    assert_eq!(lines[3], "");
    assert_eq!(lines[6], "true");
    assert_eq!(lines[7], "");
    assert_eq!(lines[8], "1;0,1");
    assert_eq!(lines[9], "4242");
}

#[test]
fn record_roundtrip_pending() {
    let rec = pending_record();
    let lines = encode_record(&rec);
    let back = parse_record(&lines, 0).expect("parses");
    assert_eq!(back, rec);
}

#[test]
fn record_roundtrip_running() {
    let rec = running_record();
    let lines = encode_record(&rec);
    let back = parse_record(&lines, 0).expect("parses");
    assert_eq!(back, rec);
}

#[test]
fn queue_roundtrip() {
    let jobs = vec![pending_record(), running_record()];
    let lines = encode_queue(&jobs);
    assert_eq!(lines.len(), 20);
    let back = parse_queue(&lines).expect("parses");
    assert_eq!(back, jobs);
}

#[test]
fn queue_rejects_ragged_file() {
    let jobs = vec![pending_record()];
    let mut lines = encode_queue(&jobs);
    lines.push("stray".to_string());
    assert!(parse_queue(&lines).is_none());
}

#[test]
fn record_rejects_bad_id() {
    let mut lines = encode_record(&pending_record());
    lines[0] = "seven".to_string();
    assert!(parse_record(&lines, 0).is_none());
}

#[test]
fn record_rejects_bad_append_flag() {
    let mut lines = encode_record(&pending_record());
    lines[6] = "yes".to_string();
    assert!(parse_record(&lines, 0).is_none());
}

#[test]
fn record_rejects_slots_without_pid() {
    let mut lines = encode_record(&pending_record());
    lines[8] = "0".to_string();
    assert!(parse_record(&lines, 0).is_none());
}

#[test]
fn bitmap_roundtrip() {
    let mut avail = init_bitmap(&vec![3, 2]);
    avail[0][1] = true;
    avail[1][0] = true;
    let lines = encode_bitmap(&avail);
    assert_eq!(lines, vec!["010".to_string(), "10".to_string()]);
    let back = parse_bitmap(&lines).expect("parses");
    assert_eq!(back, avail);
}

#[test]
fn bitmap_rejects_stray_character() {
    let lines = vec!["0120".to_string()];
    assert!(parse_bitmap(&lines).is_none());
}

#[test]
fn request_plain_counts() {
    let req = parse_request(&"1,0".to_string(), &vec![3, 2]).expect("parses");
    assert_eq!(req, vec![1, 0]);
}

#[test]
fn request_negative_takes_whole_dimension() {
    let req = parse_request(&"-1,2".to_string(), &vec![3, 2]).expect("parses");
    assert_eq!(req, vec![3, 2]);
}

#[test]
fn request_minus_zero_is_zero() {
    let req = parse_request(&"-0,1".to_string(), &vec![3, 2]).expect("parses");
    assert_eq!(req, vec![0, 1]);
}

#[test]
fn request_rejects_wrong_dimension_count() {
    assert!(parse_request(&"1".to_string(), &vec![3, 2]).is_none());
    assert!(parse_request(&"1,2,3".to_string(), &vec![3, 2]).is_none());
}

#[test]
fn env_line_parses_pairs_and_rejects_bare_names() {
    let pairs = parse_env_line(&"FOO=foo BAR=bar".to_string()).expect("parses");
    assert_eq!(pairs.len(), 2);
    assert_eq!(pairs[0].name, "FOO");
    assert_eq!(pairs[0].value, "foo");
    assert_eq!(pairs[1].name, "BAR");
    assert_eq!(pairs[1].value, "bar");
    // a value may itself hold an equals sign: the split is at the first one
    let tricky = parse_env_line(&"A=b=c".to_string()).expect("parses");
    assert_eq!(tricky[0].name, "A");
    assert_eq!(tricky[0].value, "b=c");
    assert!(parse_env_line(&"FOO".to_string()).is_none());
    assert!(parse_env_line(&"=bar".to_string()).is_none());
    assert_eq!(parse_env_line(&"".to_string()).expect("empty line"), vec![]);
}

#[test]
fn counts_parse_and_reject() {
    assert_eq!(parse_count(&"42".to_string()), Some(42));
    assert_eq!(parse_count(&"".to_string()), None);
    assert_eq!(parse_count(&"4x".to_string()), None);
    assert_eq!(parse_count_list(&"3,2".to_string(), ','), Some(vec![3, 2]));
    assert_eq!(parse_count_list(&"3,,2".to_string(), ','), None);
}

#[test]
fn request_rejects_garbage() {
    assert!(parse_request(&"one,2".to_string(), &vec![3, 2]).is_none());
    assert!(parse_request(&"-,2".to_string(), &vec![3, 2]).is_none());
}
