use cxl_os::workload::{
    batch_verdict, compute, make_msg, make_reply, make_task, read_idx, read_reply, read_task, TAG_REPLY, TAG_TASK, expected_result, expected_results, make_bulk_done, next_rand, pattern,
    read_bulk_done, sort, sort_range, task_params, task_worker, ReplyTally, LCG_INC, TAG_BULK_DONE,
    TASKS_PER_WORKER, TOTAL_TASKS,
};

#[test]
fn compute_covers_every_operation() {
    assert_eq!(compute(1, 3, 4), 7);
    assert_eq!(compute(1, u32::MAX, 1), 0);
    assert_eq!(compute(2, 0x1_0000, 0x1_0000), 0);
    assert_eq!(compute(2, 6, 7), 42);
    assert_eq!(compute(3, 5, 1), 2654435772);
    assert_eq!(compute(0, 9, 9), 9);
    assert_eq!(compute(7, 9, 9), 9);
}

#[test]
fn task_parameters_follow_the_task_id() {
    assert_eq!(task_params(0), (1, 7, 19));
    assert_eq!(task_params(4), (2, 59, 143));
    assert_eq!(task_params(5), (3, 72, 174));
    assert_eq!(expected_result(0), 26);
    assert_eq!(expected_result(4), 8437);
    assert_eq!(TOTAL_TASKS, 64);
}

#[test]
fn generator_steps_the_lcg() {
    let mut seed = 0u64;
    assert_eq!(next_rand(&mut seed), LCG_INC);
    assert_eq!(seed, LCG_INC);
    let mut seed = 0x5EED_5EEDu64;
    let r = next_rand(&mut seed);
    assert_eq!(r, 0x9f9b_f6a7_0529_c3f8);
    assert_eq!(seed, r);
}

#[test]
fn stress_pattern_bytes() {
    assert_eq!(pattern(0, 0), 0x20);
    assert_eq!(pattern(1, 1), 0x31);
    assert_eq!(pattern(3, 17), 0x33);
    assert_eq!(pattern(300, 15), 60);
}

#[test]
fn bulk_done_message_round_trips() {
    let m = make_bulk_done(300);
    assert_eq!(m[4], TAG_BULK_DONE);
    assert_eq!(m[5], 44);
    assert_eq!(m[6], 1);
    assert!(m.iter().enumerate().all(|(k, b)| k == 4 || k == 5 || k == 6 || *b == 0));
    assert_eq!(read_bulk_done(&m), 300);
    assert_eq!(read_bulk_done(&make_bulk_done(70000)), 4464);
}

#[test]
fn tally_takes_each_reply_once() {
    let mut t = ReplyTally::new(4);
    assert_eq!(t.count(), 0);
    assert!(!t.is_complete());
    assert!(t.record(2, 9));
    assert!(!t.record(2, 10));
    assert!(!t.record(9, 1));
    assert_eq!(t.count(), 1);
    assert_eq!(t.result(2), 9);
    assert!(t.record(0, 1));
    assert!(t.record(1, 2));
    assert!(!t.is_complete());
    assert!(t.record(3, 4));
    assert!(t.is_complete());
    assert_eq!(t.count(), 4);
    assert!(!t.record(1, 5));
    assert_eq!(t.mismatches(&vec![1, 2, 9, 4]), 0);
    assert_eq!(t.mismatches(&vec![1, 3, 9, 5]), 2);
}

#[test]
fn sort_range_sorts_only_the_prefix() {
    let mut v = vec![5u64, 3, 9, 1, 7];
    sort_range(&mut v, 3);
    assert_eq!(v, vec![3, 5, 9, 1, 7]);
    sort(&mut v);
    assert_eq!(v, vec![1, 3, 5, 7, 9]);
    let mut w = vec![2u64, 2, 1];
    sort_range(&mut w, 0);
    assert_eq!(w, vec![2, 2, 1]);
    sort(&mut w);
    assert_eq!(w, vec![1, 2, 2]);
}

#[test]
fn tasks_are_dealt_in_blocks() {
    assert_eq!(task_worker(0), 1);
    assert_eq!(task_worker(31), 1);
    assert_eq!(task_worker(32), 2);
    assert_eq!(task_worker(63), 2);
    assert_eq!(TASKS_PER_WORKER, 32);
    let e = expected_results(TOTAL_TASKS as u32);
    assert_eq!(e.len(), 64);
    assert_eq!(e[0], 26);
    assert_eq!(e[4], 8437);
    assert_eq!(e[5], compute(3, 72, 174));
}

#[test]
fn batch_verdicts() {
    let data = vec![4u64, 1, 3, 1];
    assert_eq!(batch_verdict(&data, &vec![1, 1, 3, 4]), 0);
    assert_eq!(batch_verdict(&data, &vec![1, 3, 1, 4]), 1);
    assert_eq!(batch_verdict(&data, &vec![1, 2, 3, 4]), 2);
    assert_eq!(batch_verdict(&vec![], &vec![]), 0);
    assert_eq!(batch_verdict(&vec![7], &vec![8]), 2);
}

#[test]
fn page_message_round_trips() {
    let m = make_msg(0x0102_0304, 9);
    assert_eq!(&m[0..5], &[4, 3, 2, 1, 9]);
    assert!(m[5..].iter().all(|b| *b == 0));
    assert_eq!(read_idx(&m), (0x0102_0304, 9));
    assert_eq!(read_idx(&make_msg(0, 1)), (0, 1));
    assert_eq!(read_idx(&make_msg((1usize << 32) + 7, 0)), (7, 0));
}

#[test]
fn task_and_reply_messages_round_trip() {
    let t = make_task(0x0A0B_0C0D, 3, 7, 0xFFFF_FFFF);
    assert_eq!(&t[0..14], &[TAG_TASK, 0x0D, 0x0C, 0x0B, 0x0A, 3, 7, 0, 0, 0, 0xFF, 0xFF, 0xFF, 0xFF]);
    assert!(t[14..].iter().all(|b| *b == 0));
    assert_eq!(read_task(&t), (0x0A0B_0C0D, 3, 7, 0xFFFF_FFFF));
    let r = make_reply(63, 8437);
    assert_eq!(r[0], TAG_REPLY);
    assert_eq!(read_reply(&r), (63, 8437));
}
