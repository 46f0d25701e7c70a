//! The executable record and queue codec.
//!
//! Encoding is exact against `enc_record`/`enc_queue`, parsing against
//! `parse_record_spec`/`parse_queue_spec`; together with the round-trip
//! lemmas of `job` this pins down the queue file bit for bit.

use vstd::prelude::*;
use crate::chars::{str_to_chars, chars_to_string, sub_chars};
use crate::numfmt::{fmt_usize, parse_usize_chars, dec_val, is_dec_seq, is_digit_char};
use crate::text::{split_on, views_of, join_chars, split_chars};
use crate::listfmt::{enc_list, parse_list_spec, encode_list, parse_list};
use crate::job::{
    EnvPair, EnvPairView, JobRecord, JobView, env_views, slots_views, job_views, enc_env, enc_env_piece,
    parse_env_piece, parse_env_spec, enc_assigned, parse_assigned_spec, enc_bool, true_chars,
    false_chars, enc_record, parse_record_spec, enc_queue, parse_queue_spec,
};

verus! {

/// Encodes the environment overrides as one space-joined line.
fn encode_env_field(env: &Vec<EnvPair>) -> (r: Vec<char>)
    ensures
        r@ == enc_env(env_views(env@)),
{
    if env.len() == 0 {
        let r: Vec<char> = Vec::new();
        assert(r@ =~= enc_env(env_views(env@)));
        return r;
    }
    let mut pieces: Vec<Vec<char>> = Vec::new();
    let mut i: usize = 0;
    while i < env.len()
        invariant
            i <= env@.len(),
            pieces@.len() == i,
            forall|k: int| 0 <= k < i ==> pieces@[k]@ == enc_env_piece(env@[k]@),
        decreases env@.len() - i,
    {
        let mut piece = str_to_chars(env[i].name.as_str());
        piece.push('=');
        let val = str_to_chars(env[i].value.as_str());
        let mut k: usize = 0;
        while k < val.len()
            invariant
                k <= val@.len(),
                piece@ == env@[i as int]@.name + seq!['='] + val@.take(k as int),
                i < env@.len(),
                val@ == env@[i as int]@.value,
            decreases val@.len() - k,
        {
            piece.push(val[k]);
            k = k + 1;
            assert(val@.take(k as int) =~= val@.take(k - 1).push(val@[k - 1]));
            assert(piece@ =~= env@[i as int]@.name + seq!['='] + val@.take(k as int));
        }
        assert(val@.take(val@.len() as int) =~= val@);
        assert(piece@ == enc_env_piece(env@[i as int]@)) by {
            assert(piece@ =~= env@[i as int]@.name + seq!['='] + env@[i as int]@.value);
        }
        pieces.push(piece);
        i = i + 1;
        assert(piece@ =~= env@[i - 1]@.name + seq!['='] + env@[i - 1]@.value);
    }
    assert(views_of(pieces@) =~= Seq::new(env_views(env@).len(), |k: int| enc_env_piece(
        env_views(env@)[k],
    )));
    join_chars(&pieces, ' ')
}

/// Encodes the assigned-slots field: comma lists joined by semicolons.
fn encode_assigned_field(assigned: &Vec<Vec<usize>>) -> (r: Vec<char>)
    ensures
        r@ == enc_assigned(slots_views(assigned@)),
{
    if assigned.len() == 0 {
        let r: Vec<char> = Vec::new();
        assert(r@ =~= enc_assigned(slots_views(assigned@)));
        return r;
    }
    let mut pieces: Vec<Vec<char>> = Vec::new();
    let mut d: usize = 0;
    while d < assigned.len()
        invariant
            d <= assigned@.len(),
            pieces@.len() == d,
            forall|k: int| 0 <= k < d ==> pieces@[k]@ == enc_list(assigned@[k]@, ','),
        decreases assigned@.len() - d,
    {
        pieces.push(encode_list(&assigned[d], ','));
        d = d + 1;
    }
    assert(views_of(pieces@) =~= Seq::new(slots_views(assigned@).len(), |k: int| enc_list(
        slots_views(assigned@)[k],
        ',',
    )));
    join_chars(&pieces, ';')
}

/// Encodes one record as its ten lines.
pub fn encode_record(j: &JobRecord) -> (r: Vec<String>)
    ensures
        r.deep_view() == enc_record(j@),
{
    let mut lines: Vec<String> = Vec::new();
    lines.push(chars_to_string(&fmt_usize(j.id)));
    lines.push(chars_to_string(&encode_list(&j.nslots, ',')));
    lines.push(j.command.clone());
    lines.push(chars_to_string(&encode_env_field(&j.env)));
    lines.push(j.out.clone());
    lines.push(j.err.clone());
    if j.append {
        let t = String::from_str("true");
        proof {
            reveal_strlit("true");
            assert(t@ =~= true_chars());
        }
        lines.push(t);
    } else {
        let f = String::from_str("false");
        proof {
            reveal_strlit("false");
            assert(f@ =~= false_chars());
        }
        lines.push(f);
    }
    lines.push(chars_to_string(&encode_list(&j.deps, ' ')));
    lines.push(chars_to_string(&encode_assigned_field(&j.assigned)));
    match j.pid {
        Some(p) => {
            lines.push(chars_to_string(&fmt_usize(p)));
        },
        None => {
            lines.push(String::new());
        },
    }
    assert(lines.deep_view() =~~= enc_record(j@));
    lines
}

/// Parses the append flag: exactly `true` or `false`.
fn parse_bool_chars(v: &Vec<char>) -> (r: Option<bool>)
    ensures
        match r {
            Some(b) => v@ == enc_bool(b),
            None => v@ != true_chars() && v@ != false_chars(),
        },
{
    if v.len() == 4 && v[0] == 't' && v[1] == 'r' && v[2] == 'u' && v[3]
        == 'e' {
        assert(v@ =~= true_chars());
        Some(true)
    } else if v.len() == 5 && v[0] == 'f' && v[1] == 'a' && v[2] == 'l'
        && v[3] == 's' && v[4] == 'e' {
        assert(v@ =~= false_chars());
        Some(false)
    } else {
        proof {
            if v@ == true_chars() {
                assert(v@.len() == 4 && v@[0] == 't' && v@[1] == 'r' && v@[2] == 'u' && v@[3]
                    == 'e');
            }
            if v@ == false_chars() {
                assert(v@.len() == 5 && v@[0] == 'f' && v@[1] == 'a' && v@[2] == 'l' && v@[3] == 's'
                    && v@[4] == 'e');
            }
        }
        None
    }
}

/// Parses the environment-override line.
fn parse_env_field(v: &Vec<char>) -> (r: Option<Vec<EnvPair>>)
    ensures
        match r {
            Some(e) => parse_env_spec(v@) == Some(env_views(e@)),
            None => parse_env_spec(v@) is None,
        },
{
    if v.len() == 0 {
        let e: Vec<EnvPair> = Vec::new();
        assert(env_views(e@) =~= Seq::<EnvPairView>::empty());
        return Some(e);
    }
    let pieces = split_chars(v, ' ');
    let ghost piecesv = split_on(v@, ' ');
    let mut e: Vec<EnvPair> = Vec::new();
    let mut i: usize = 0;
    while i < pieces.len()
        invariant
            v@.len() > 0,
            i <= pieces@.len(),
            views_of(pieces@) == piecesv,
            piecesv == split_on(v@, ' '),
            e@.len() == i,
            forall|k: int|
                0 <= k < i ==> parse_env_piece(#[trigger] piecesv[k]) == Some(e@[k]@),
        decreases pieces@.len() - i,
    {
        let piece = &pieces[i];
        let ghost pv = piecesv[i as int];
        assert(piece@ == pv);
        let n = piece.len();
        let mut k: usize = 0;
        while k < n && piece[k] != '='
            invariant
                n == piece@.len(),
                k <= n,
                forall|w: int| 0 <= w < k ==> piece@[w] != '=',
            decreases n - k,
        {
            k = k + 1;
        }
        proof {
            pv.index_of_first_ensures('=');
        }
        if k == n {
            // no separator in this piece
            proof {
                if pv.contains('=') {
                    let w = choose|w: int| 0 <= w < pv.len() && pv[w] == '=';
                }
                assert(parse_env_piece(pv) is None);
                if forall|kk: int|
                    0 <= kk < piecesv.len() ==> parse_env_piece(#[trigger] piecesv[kk]) is Some {
                    assert(parse_env_piece(piecesv[i as int]) is Some);
                }
            }
            return None;
        }
        assert(pv[k as int] == '=');
        assert(pv.index_of_first('=') == Some(k as int)) by {
            assert(pv.contains('='));
            let idx = pv.index_of_first('=').unwrap();
            if idx < k {
                assert(pv[idx] == '=');
            }
            if idx > k {
                assert(pv[k as int] != '=');
            }
        }
        if k == 0 {
            proof {
                assert(parse_env_piece(pv) is None);
                if forall|kk: int|
                    0 <= kk < piecesv.len() ==> parse_env_piece(#[trigger] piecesv[kk]) is Some {
                    assert(parse_env_piece(piecesv[i as int]) is Some);
                }
            }
            return None;
        }
        let name = chars_to_string(&sub_chars(piece, 0, k));
        let value = chars_to_string(&sub_chars(piece, k + 1, n));
        let pair = EnvPair { name, value };
        assert(pair@ == parse_env_piece(pv).unwrap()) by {
            assert(pv.take(k as int) =~= pv.subrange(0, k as int));
            assert(pv.skip(k + 1) =~= pv.subrange(k + 1, pv.len() as int));
        }
        e.push(pair);
        i = i + 1;
    }
    assert(env_views(e@) =~= Seq::new(piecesv.len(), |k: int| parse_env_piece(
        piecesv[k],
    ).unwrap()));
    Some(e)
}

/// Parses the assigned-slots line of a running record.
fn parse_assigned_field(v: &Vec<char>) -> (r: Option<Vec<Vec<usize>>>)
    ensures
        match r {
            Some(a) => parse_assigned_spec(v@) == Some(slots_views(a@)),
            None => parse_assigned_spec(v@) is None,
        },
{
    let pieces = split_chars(v, ';');
    let ghost piecesv = split_on(v@, ';');
    let mut a: Vec<Vec<usize>> = Vec::new();
    let mut d: usize = 0;
    while d < pieces.len()
        invariant
            d <= pieces@.len(),
            views_of(pieces@) == piecesv,
            piecesv == split_on(v@, ';'),
            a@.len() == d,
            forall|k: int|
                0 <= k < d ==> parse_list_spec(#[trigger] piecesv[k], ',') == Some(a@[k]@),
        decreases pieces@.len() - d,
    {
        assert(pieces@[d as int]@ == piecesv[d as int]);
        match parse_list(&pieces[d], ',') {
            Some(ns) => {
                a.push(ns);
            },
            None => {
                proof {
                    if forall|k: int|
                        0 <= k < piecesv.len() ==> parse_list_spec(#[trigger] piecesv[k], ',')
                            is Some {
                        assert(parse_list_spec(piecesv[d as int], ',') is Some);
                    }
                }
                return None;
            },
        }
        d = d + 1;
    }
    assert(slots_views(a@) =~= Seq::new(piecesv.len(), |k: int| parse_list_spec(
        piecesv[k],
        ',',
    ).unwrap()));
    Some(a)
}

/// Parses one decimal count, as the id arguments and the counter file hold
/// it.
pub fn parse_count(s: &String) -> (r: Option<usize>)
    ensures
        match r {
            Some(v) => is_dec_seq(s@) && v == dec_val(s@),
            None => !is_dec_seq(s@) || dec_val(s@) > usize::MAX,
        },
{
    let cs = str_to_chars(s.as_str());
    parse_usize_chars(&cs)
}

/// Parses a `sep`-joined list of decimal counts, as the slot totals of a
/// starting instance are given.
pub fn parse_count_list(s: &String, sep: char) -> (r: Option<Vec<usize>>)
    ensures
        match r {
            Some(ns) => parse_list_spec(s@, sep) == Some(ns@),
            None => parse_list_spec(s@, sep) is None,
        },
{
    let cs = str_to_chars(s.as_str());
    parse_list(&cs, sep)
}

/// Parses a space-joined `NAME=VALUE` line into override pairs, as a
/// submission hands them in.
pub fn parse_env_line(s: &String) -> (r: Option<Vec<EnvPair>>)
    ensures
        match r {
            Some(e) => parse_env_spec(s@) == Some(env_views(e@)),
            None => parse_env_spec(s@) is None,
        },
{
    let cs = str_to_chars(s.as_str());
    parse_env_field(&cs)
}

/// Parses the ten lines starting at `off` as one record.
pub fn parse_record(lines: &Vec<String>, off: usize) -> (r: Option<JobRecord>)
    requires
        off + 10 <= lines@.len(),
    ensures
        match r {
            Some(j) => parse_record_spec(lines.deep_view().subrange(off as int, off + 10)) == Some(
                j@,
            ),
            None => parse_record_spec(lines.deep_view().subrange(off as int, off + 10)) is None,
        },
{
    let ghost sub = lines.deep_view().subrange(off as int, off + 10);
    assert(sub.len() == 10);
    proof {
        assert(lines@.len() <= usize::MAX) by {
            assert(lines.len() == lines@.len());
        }
    }
    let l0 = str_to_chars(lines[off].as_str());
    let l1 = str_to_chars(lines[off + 1].as_str());
    let l2 = str_to_chars(lines[off + 2].as_str());
    let l3 = str_to_chars(lines[off + 3].as_str());
    let l4 = str_to_chars(lines[off + 4].as_str());
    let l5 = str_to_chars(lines[off + 5].as_str());
    let l6 = str_to_chars(lines[off + 6].as_str());
    let l7 = str_to_chars(lines[off + 7].as_str());
    let l8 = str_to_chars(lines[off + 8].as_str());
    let l9 = str_to_chars(lines[off + 9].as_str());
    assert(l0@ == sub[0] && l1@ == sub[1] && l2@ == sub[2] && l3@ == sub[3] && l4@ == sub[4] && l5@
        == sub[5] && l6@ == sub[6] && l7@ == sub[7] && l8@ == sub[8] && l9@ == sub[9]);
    let id = match parse_usize_chars(&l0) {
        Some(n) => n,
        None => {
            return None;
        },
    };
    let nslots = match parse_list(&l1, ',') {
        Some(ns) => ns,
        None => {
            return None;
        },
    };
    let env = match parse_env_field(&l3) {
        Some(e) => e,
        None => {
            return None;
        },
    };
    let append = match parse_bool_chars(&l6) {
        Some(b) => b,
        None => {
            return None;
        },
    };
    let deps = match parse_list(&l7, ' ') {
        Some(ds) => ds,
        None => {
            return None;
        },
    };
    if l9.len() == 0 {
        if l8.len() != 0 {
            return None;
        }
        let j = JobRecord {
            id,
            nslots,
            command: lines[off + 2].clone(),
            env,
            out: lines[off + 4].clone(),
            err: lines[off + 5].clone(),
            append,
            deps,
            assigned: Vec::new(),
            pid: None,
        };
        assert(parse_record_spec(sub) == Some(j@)) by {
            assert(slots_views(j.assigned@) =~= Seq::<Seq<usize>>::empty());
            assert(j@ =~~= parse_record_spec(sub).unwrap());
        }
        return Some(j);
    }
    let pid = match parse_usize_chars(&l9) {
        Some(p) => p,
        None => {
            return None;
        },
    };
    let assigned = match parse_assigned_field(&l8) {
        Some(a) => a,
        None => {
            return None;
        },
    };
    let j = JobRecord {
        id,
        nslots,
        command: lines[off + 2].clone(),
        env,
        out: lines[off + 4].clone(),
        err: lines[off + 5].clone(),
        append,
        deps,
        assigned,
        pid: Some(pid),
    };
    assert(parse_record_spec(sub) == Some(j@)) by {
        assert(j@ =~~= parse_record_spec(sub).unwrap());
    }
    Some(j)
}

/// The queue file of a pushed job is the old file plus its record.
proof fn lemma_enc_queue_snoc(jobs: Seq<JobView>, j: JobView)
    ensures
        enc_queue(jobs.push(j)) == enc_queue(jobs) + enc_record(j),
    decreases jobs.len(),
{
    if jobs.len() == 0 {
        assert(jobs.push(j).drop_first() =~= Seq::<JobView>::empty());
        assert(jobs.push(j).first() == j);
        assert(enc_queue(jobs.push(j)) == enc_record(j) + enc_queue(Seq::<JobView>::empty()));
        assert(enc_queue(jobs.push(j)) =~= enc_queue(jobs) + enc_record(j));
    } else {
        assert(jobs.push(j).first() == jobs.first());
        assert(jobs.push(j).drop_first() =~= jobs.drop_first().push(j));
        lemma_enc_queue_snoc(jobs.drop_first(), j);
        assert(enc_queue(jobs.push(j)) == enc_record(jobs.first()) + (enc_queue(jobs.drop_first())
            + enc_record(j)));
        assert(enc_queue(jobs) == enc_record(jobs.first()) + enc_queue(jobs.drop_first()));
        assert(enc_queue(jobs.push(j)) =~= enc_queue(jobs) + enc_record(j));
    }
}

/// Encodes the whole queue, ten lines per record, in order.
pub fn encode_queue(jobs: &Vec<JobRecord>) -> (r: Vec<String>)
    ensures
        r.deep_view() == enc_queue(job_views(jobs@)),
{
    let mut lines: Vec<String> = Vec::new();
    let mut i: usize = 0;
    assert(lines.deep_view() =~= enc_queue(job_views(jobs@).take(0)));
    while i < jobs.len()
        invariant
            i <= jobs@.len(),
            lines.deep_view() == enc_queue(job_views(jobs@).take(i as int)),
        decreases jobs@.len() - i,
    {
        let mut rec = encode_record(&jobs[i]);
        let ghost before = lines.deep_view();
        let mut k: usize = 0;
        while k < rec.len()
            invariant
                k <= rec@.len(),
                rec.deep_view() == enc_record(jobs@[i as int]@),
                i < jobs@.len(),
                lines.deep_view() == before + rec.deep_view().take(k as int),
            decreases rec@.len() - k,
        {
            let line = rec[k].clone();
            assert(line@ == rec.deep_view()[k as int]);
            let ghost prev = lines.deep_view();
            lines.push(line);
            proof {
                assert(lines.deep_view() =~= prev.push(rec.deep_view()[k as int]));
            }
            k = k + 1;
            proof {
                assert(rec.deep_view().take(k as int) =~= rec.deep_view().take(k - 1).push(
                    rec.deep_view()[k - 1],
                ));
                assert(lines.deep_view() =~= before + rec.deep_view().take(k as int));
            }
        }
        assert(rec.deep_view().take(rec.deep_view().len() as int) =~= rec.deep_view());
        proof {
            lemma_enc_queue_snoc(job_views(jobs@).take(i as int), jobs@[i as int]@);
            assert(job_views(jobs@).take(i + 1) =~= job_views(jobs@).take(i as int).push(
                jobs@[i as int]@,
            ));
        }
        i = i + 1;
    }
    assert(job_views(jobs@).take(jobs@.len() as int) =~= job_views(jobs@));
    lines
}

/// One piece of a submitted request: plain slot counts, or a minus sign
/// followed by digits to claim a whole dimension.
pub open spec fn req_piece_ok(p: Seq<char>) -> bool {
    ||| (p.len() > 1 && p[0] == '-' && is_dec_seq(p.skip(1)) && dec_val(p.skip(1)) <= usize::MAX)
    ||| (is_dec_seq(p) && dec_val(p) <= usize::MAX)
}

/// The count a piece stands for: a negative count (other than minus zero)
/// claims every slot of the dimension.
pub open spec fn req_piece_value(p: Seq<char>, total: usize) -> usize {
    if p[0] == '-' {
        if dec_val(p.skip(1)) == 0 {
            0usize
        } else {
            total
        }
    } else {
        dec_val(p) as usize
    }
}

/// What a submitted request string resolves to against the instance's slot
/// totals: one count per dimension, negatives resolved to the whole
/// dimension.
pub open spec fn parse_request_spec(s: Seq<char>, totals: Seq<usize>) -> Option<Seq<usize>> {
    let pieces = split_on(s, ',');
    if pieces.len() == totals.len() && forall|i: int|
        0 <= i < pieces.len() ==> req_piece_ok(#[trigger] pieces[i]) {
        Some(Seq::new(pieces.len(), |i: int| req_piece_value(pieces[i], totals[i])))
    } else {
        None
    }
}

/// Resolves a submitted request string against the slot totals; `None` when
/// the dimension count differs or a piece is not a (possibly negative)
/// decimal count.
pub fn parse_request(s: &String, totals: &Vec<usize>) -> (r: Option<Vec<usize>>)
    ensures
        match r {
            Some(req) => parse_request_spec(s@, totals@) == Some(req@) && req@.len()
                == totals@.len(),
            None => parse_request_spec(s@, totals@) is None,
        },
{
    let cs = str_to_chars(s.as_str());
    let pieces = split_chars(&cs, ',');
    let ghost piecesv = split_on(s@, ',');
    if pieces.len() != totals.len() {
        return None;
    }
    let mut req: Vec<usize> = Vec::new();
    let mut i: usize = 0;
    while i < pieces.len()
        invariant
            views_of(pieces@) == piecesv,
            piecesv == split_on(s@, ','),
            piecesv.len() == totals@.len(),
            i <= piecesv.len(),
            req@.len() == i,
            forall|k: int|
                0 <= k < i ==> req_piece_ok(#[trigger] piecesv[k]) && req@[k] == req_piece_value(
                    piecesv[k],
                    totals@[k],
                ),
        decreases piecesv.len() - i,
    {
        let piece = &pieces[i];
        assert(piece@ == piecesv[i as int]);
        if piece.len() > 1 && piece[0] == '-' {
            let rest = sub_chars(piece, 1, piece.len());
            assert(rest@ =~= piece@.skip(1));
            match parse_usize_chars(&rest) {
                Some(n) => {
                    if n == 0 {
                        req.push(0);
                    } else {
                        req.push(totals[i]);
                    }
                },
                None => {
                    assert(!req_piece_ok(piecesv[i as int])) by {
                        if is_dec_seq(piecesv[i as int]) {
                            assert(is_digit_char(piecesv[i as int][0]));
                        }
                    }
                    assert(parse_request_spec(s@, totals@) is None) by {
                        if forall|k: int|
                            0 <= k < piecesv.len() ==> req_piece_ok(#[trigger] piecesv[k]) {
                            assert(req_piece_ok(piecesv[i as int]));
                        }
                    }
                    return None;
                },
            }
        } else {
            match parse_usize_chars(piece) {
                Some(n) => {
                    req.push(n);
                    assert(req_piece_ok(piecesv[i as int]));
                    assert(piecesv[i as int][0] != '-') by {
                        if piecesv[i as int][0] == '-' {
                            assert(is_digit_char(piecesv[i as int][0]));
                        }
                    }
                },
                None => {
                    assert(!req_piece_ok(piecesv[i as int])) by {
                        if piecesv[i as int].len() > 1 && piecesv[i as int][0] == '-' {
                            assert(piece@.len() > 1 && piece@[0] == '-');
                        }
                    }
                    assert(parse_request_spec(s@, totals@) is None) by {
                        if forall|k: int|
                            0 <= k < piecesv.len() ==> req_piece_ok(#[trigger] piecesv[k]) {
                            assert(req_piece_ok(piecesv[i as int]));
                        }
                    }
                    return None;
                },
            }
        }
        i = i + 1;
    }
    assert(req@ =~= Seq::new(piecesv.len(), |k: int| req_piece_value(piecesv[k], totals@[k])));
    Some(req)
}

/// Parses a queue file; `None` marks a corrupt file.
pub fn parse_queue(lines: &Vec<String>) -> (r: Option<Vec<JobRecord>>)
    ensures
        match r {
            Some(jobs) => parse_queue_spec(lines.deep_view()) == Some(job_views(jobs@)),
            None => parse_queue_spec(lines.deep_view()) is None,
        },
{
    let ghost lv = lines.deep_view();
    let mut jobs: Vec<JobRecord> = Vec::new();
    let mut off: usize = 0;
    proof {
        assert(lv.skip(0) =~= lv);
        assert forall|rest: Seq<JobView>|
            parse_queue_spec(lv.skip(0)) == Some(rest) implies parse_queue_spec(lv) == Some(
            job_views(jobs@) + rest,
        ) by {
            assert(job_views(jobs@) + rest =~= rest);
        }
    }
    while off < lines.len()
        invariant
            lv == lines.deep_view(),
            off <= lv.len(),
            // everything before `off` parsed into `jobs`
            forall|rest: Seq<JobView>|
                parse_queue_spec(lv.skip(off as int)) == Some(rest) ==> parse_queue_spec(lv)
                    == Some(job_views(jobs@) + rest),
            parse_queue_spec(lv.skip(off as int)) is None ==> parse_queue_spec(lv) is None,
        decreases lv.len() - off,
    {
        if lines.len() - off < 10 {
            assert(parse_queue_spec(lv.skip(off as int)) is None);
            return None;
        }
        let rec = match parse_record(lines, off) {
            Some(j) => j,
            None => {
                assert(lv.skip(off as int).take(10) =~= lv.subrange(off as int, off + 10));
                assert(parse_queue_spec(lv.skip(off as int)) is None);
                return None;
            },
        };
        proof {
            assert(lv.skip(off as int).take(10) =~= lv.subrange(off as int, off + 10));
            assert(lv.skip(off as int).skip(10) =~= lv.skip(off + 10));
        }
        let ghost old_jobs = job_views(jobs@);
        jobs.push(rec);
        proof {
            assert(job_views(jobs@) =~= old_jobs.push(rec@));
            assert forall|rest: Seq<JobView>|
                parse_queue_spec(lv.skip(off + 10)) == Some(rest) implies parse_queue_spec(lv)
                == Some(job_views(jobs@) + rest) by {
                assert(parse_queue_spec(lv.skip(off as int)) == Some(seq![rec@] + rest));
                assert(old_jobs + (seq![rec@] + rest) =~= job_views(jobs@) + rest);
            }
            if parse_queue_spec(lv.skip(off + 10)) is None {
                assert(parse_queue_spec(lv.skip(off as int)) is None);
            }
        }
        off = off + 10;
    }
    assert(lv.skip(lv.len() as int) =~= Seq::<Seq<char>>::empty());
    assert(job_views(jobs@) + Seq::<JobView>::empty() =~= job_views(jobs@));
    Some(jobs)
}

} // verus!
