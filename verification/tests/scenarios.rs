//! Scheduling passes played out against the state model: submission order,
//! dependencies, forced removal and multi-dimension slot exposure.

use aitch::bitmap::{get_nslots_free, get_nslots_used, init_bitmap};
use aitch::job::EnvPair;
use aitch::spawn::{build_env, prepare_command};
use aitch::state::SchedulerState;

fn submit_cmd(s: &mut SchedulerState, nslots: Vec<usize>, cmd: &str, deps: Vec<usize>) -> usize {
    s.submit(
        nslots,
        cmd.to_string(),
        Vec::new(),
        String::new(),
        String::new(),
        false,
        deps,
    )
    .expect("submission accepted")
}

#[test]
fn single_slot_jobs_run_one_after_the_other() {
    // Scenario: one slot; the first job dispatches at once, the second waits
    // for it, and the queue drains to nothing.
    let mut s = SchedulerState::new(init_bitmap(&vec![1]));
    let a = submit_cmd(&mut s, vec![1], "sleep 5", vec![]);
    assert_eq!(a, 1);
    let (ja, alloc_a) = s.schedule_find().expect("first job dispatches");
    assert_eq!(ja, 0);
    assert_eq!(alloc_a, vec![vec![0]]);
    assert!(s.dispatch_mark(ja, 1111));
    assert_eq!(s.jobs[0].pid, Some(1111));

    let b = submit_cmd(&mut s, vec![1], "touch marker", vec![]);
    assert_eq!(b, 2);
    // no free slot: the second job stays pending with no pid
    assert!(s.schedule_find().is_none());
    assert_eq!(s.jobs[1].pid, None);

    // the first job exits: its pass removes it and the cascade dispatches b
    assert!(s.finish_job(a));
    let (jb, alloc_b) = s.schedule_find().expect("second job dispatches");
    assert_eq!(s.jobs[jb].id, b);
    assert_eq!(alloc_b, vec![vec![0]]);
    assert!(s.dispatch_mark(jb, 2222));
    assert!(s.finish_job(b));
    let (total, running, pending) = s.count_jobs();
    assert_eq!((total, running, pending), (0, 0, 0));
}

#[test]
fn dependent_job_waits_despite_free_slot() {
    // Scenario: two slots; the dependent job stays pending while the record
    // of its dependency is still queued, then dispatches.
    let mut s = SchedulerState::new(init_bitmap(&vec![2]));
    let a = submit_cmd(&mut s, vec![1], "sleep 5", vec![]);
    let (ja, _) = s.schedule_find().expect("dependency dispatches");
    assert!(s.dispatch_mark(ja, 1111));

    let b = submit_cmd(&mut s, vec![1], "touch marker", vec![a]);
    // a slot is free, but b depends on a, whose record is still queued
    assert_eq!(get_nslots_free(&s.avail), vec![1]);
    assert!(s.schedule_find().is_none());

    assert!(s.finish_job(a));
    let (jb, _) = s.schedule_find().expect("dependent dispatches");
    assert_eq!(s.jobs[jb].id, b);
}

#[test]
fn forced_removal_clears_slots_and_record() {
    // Scenario: the job's process died out-of-band; the forced removal still
    // clears its slots and drops its record, and the used count shrinks.
    let mut s = SchedulerState::new(init_bitmap(&vec![2]));
    let a = submit_cmd(&mut s, vec![2], "sleep 600", vec![]);
    let (ja, _) = s.schedule_find().expect("dispatches");
    assert!(s.dispatch_mark(ja, 31337));
    assert_eq!(get_nslots_used(&s.avail), vec![2]);

    assert!(s.finish_job(a));
    assert_eq!(get_nslots_used(&s.avail), vec![0]);
    assert_eq!(get_nslots_free(&s.avail), vec![2]);
    let (total, running, pending) = s.count_jobs();
    assert_eq!((total, running, pending), (0, 0, 0));
    // removing it twice reports that nothing was found
    assert!(!s.finish_job(a));
}

#[test]
fn multi_dimension_allocation_reaches_the_environment() {
    // Scenario: dimensions of size 3 and 2; the first job takes slot 0 of
    // dimension 0; the second job's environment must expose dimension-0
    // index 1 and dimension-1 indices 0 and 1.
    let mut s = SchedulerState::new(init_bitmap(&vec![3, 2]));
    let _one = submit_cmd(&mut s, vec![1, 0], "sleep 5", vec![]);
    let (j1, alloc1) = s.schedule_find().expect("first dispatches");
    assert_eq!(alloc1, vec![vec![0], vec![]]);
    assert!(s.dispatch_mark(j1, 1111));

    let _two = submit_cmd(&mut s, vec![1, 2], "printenv", vec![]);
    let (_j2, alloc2) = s.schedule_find().expect("second dispatches");
    assert_eq!(alloc2, vec![vec![1], vec![0, 1]]);

    let env = build_env(&alloc2, &Vec::new());
    assert_eq!(env.len(), 2);
    assert_eq!(env[0].name, "QUEUE0");
    assert_eq!(env[0].value, "1");
    assert_eq!(env[1].name, "QUEUE1");
    assert_eq!(env[1].value, "0,1");
}

#[test]
fn user_overrides_follow_queue_variables_and_win_collisions() {
    let alloc = vec![vec![2]];
    let overrides = vec![
        EnvPair { name: "FOO".to_string(), value: "foo".to_string() },
        EnvPair { name: "QUEUE0".to_string(), value: "mine".to_string() },
    ];
    let env = build_env(&alloc, &overrides);
    // QUEUE0 is overridden, so only the user pairs remain
    assert_eq!(env.len(), 2);
    assert_eq!(env[0].name, "FOO");
    assert_eq!(env[0].value, "foo");
    assert_eq!(env[1].name, "QUEUE0");
    assert_eq!(env[1].value, "mine");
}

#[test]
fn submitted_ids_increase_even_across_removals() {
    let mut s = SchedulerState::new(init_bitmap(&vec![1]));
    let a = submit_cmd(&mut s, vec![1], "sleep 1", vec![]);
    let b = submit_cmd(&mut s, vec![1], "sleep 1", vec![]);
    assert!(a < b);
    assert!(s.finish_job(a));
    assert!(s.finish_job(b));
    let c = submit_cmd(&mut s, vec![1], "sleep 1", vec![]);
    // ids are never reused
    assert_eq!((a, b, c), (1, 2, 3));
}

#[test]
fn removal_keeps_queue_order() {
    let mut s = SchedulerState::new(init_bitmap(&vec![1]));
    for _ in 0..4 {
        submit_cmd(&mut s, vec![1], "sleep 1", vec![]);
    }
    assert!(s.finish_job(2));
    let ids: Vec<usize> = s.jobs.iter().map(|j| j.id).collect();
    assert_eq!(ids, vec![1, 3, 4]);
}

#[test]
fn larger_job_is_passed_over_by_a_smaller_one() {
    // first-fit over submission order: a large pending job does not hold up
    // a later job that fits
    let mut s = SchedulerState::new(init_bitmap(&vec![2]));
    let _big = submit_cmd(&mut s, vec![2], "sleep 5", vec![]);
    let (j, _) = s.schedule_find().expect("big dispatches first");
    assert!(s.dispatch_mark(j, 1111));
    let _huge = submit_cmd(&mut s, vec![2], "sleep 5", vec![]);
    let small = submit_cmd(&mut s, vec![1], "sleep 1", vec![]);
    assert!(s.finish_job(1));
    // both slots free: the huge job (submitted earlier) wins the scan
    let (j2, _) = s.schedule_find().expect("huge dispatches");
    assert_eq!(s.jobs[j2].id, 2);
    assert!(s.dispatch_mark(j2, 2222));
    // nothing fits behind it
    assert!(s.schedule_find().is_none());
    assert!(s.finish_job(2));
    let (j3, _) = s.schedule_find().expect("small dispatches");
    assert_eq!(s.jobs[j3].id, small);
}

#[test]
fn submit_rejects_dimension_mismatch_and_newlines() {
    let mut s = SchedulerState::new(init_bitmap(&vec![1, 1]));
    assert!(s
        .submit(
            vec![1],
            "ls".to_string(),
            Vec::new(),
            String::new(),
            String::new(),
            false,
            Vec::new(),
        )
        .is_none());
    assert!(s
        .submit(
            vec![1, 1],
            "ls\nrm".to_string(),
            Vec::new(),
            String::new(),
            String::new(),
            false,
            Vec::new(),
        )
        .is_none());
    let (total, _, _) = s.count_jobs();
    assert_eq!(total, 0);
}

#[test]
fn command_lines_split_into_words() {
    let (exe, args) = prepare_command(&"cp 'my file' dest".to_string()).expect("splits");
    assert_eq!(exe, "cp");
    assert_eq!(args, vec!["my file".to_string(), "dest".to_string()]);
}

#[test]
fn unclosed_quote_and_empty_command_are_rejected() {
    assert!(prepare_command(&"echo 'oops".to_string()).is_none());
    assert!(prepare_command(&"".to_string()).is_none());
}

#[test]
fn running_pids_lists_only_running_jobs() {
    let mut s = SchedulerState::new(init_bitmap(&vec![2]));
    submit_cmd(&mut s, vec![1], "sleep 5", vec![]);
    submit_cmd(&mut s, vec![1], "sleep 5", vec![]);
    let (j, _) = s.schedule_find().expect("dispatches");
    assert!(s.dispatch_mark(j, 777));
    assert_eq!(s.running_pids(), vec![777]);
    let (total, running, pending) = s.count_jobs();
    assert_eq!((total, running, pending), (2, 1, 1));
}

#[test]
fn validator_accepts_reachable_states_and_rejects_tampering() {
    let mut s = SchedulerState::new(init_bitmap(&vec![2]));
    assert!(s.is_wf());
    submit_cmd(&mut s, vec![1], "sleep 5", vec![]);
    let (j, _) = s.schedule_find().expect("dispatches");
    assert!(s.dispatch_mark(j, 4242));
    assert!(s.is_wf());

    // a busy bit with no owning job is inconsistent
    let mut broken = SchedulerState::new(init_bitmap(&vec![2]));
    broken.avail[0][1] = true;
    assert!(!broken.is_wf());

    // duplicate ids are inconsistent
    let mut dup = SchedulerState::new(init_bitmap(&vec![1]));
    submit_cmd(&mut dup, vec![1], "sleep 1", vec![]);
    let copy = dup.jobs[0].clone();
    dup.jobs.push(copy);
    assert!(!dup.is_wf());
}

#[test]
fn dependency_on_an_unknown_id_never_blocks() {
    // the scan only sees ids it has visited: an id never handed out cannot
    // block, so such a job dispatches at once
    let mut s = SchedulerState::new(init_bitmap(&vec![1]));
    submit_cmd(&mut s, vec![1], "sleep 1", vec![99]);
    let (j, _) = s.schedule_find().expect("dispatches despite the unknown id");
    assert_eq!(s.jobs[j].id, 1);
}
