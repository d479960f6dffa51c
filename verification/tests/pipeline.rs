use cxl_os::pipeline::{
    make_msg, read_msg, result_chunk, SortWorker, WorkerAction, WorkerPhase, BATCH_SIZE, PER_MSG, TAG_ACK,
    TAG_BATCH, TAG_DATA, TAG_DONE, TAG_RESULT,
};

#[test]
fn value_message_round_trips() {
    let vals = vec![1u64, 0x0102_0304_0506_0708, u64::MAX];
    let m = make_msg(TAG_DATA, &vals);
    assert_eq!(m[0], TAG_DATA);
    assert_eq!(&m[9..17], &[8, 7, 6, 5, 4, 3, 2, 1]);
    assert!(m[25..].iter().all(|b| *b == 0));
    let (tag, got) = read_msg(&m);
    assert_eq!(tag, TAG_DATA);
    assert_eq!(got, [1, 0x0102_0304_0506_0708, u64::MAX, 0, 0, 0, 0]);
    let nine: Vec<u64> = (1..=9).collect();
    let (_, got) = read_msg(&make_msg(TAG_RESULT, &nine));
    assert_eq!(got, [1, 2, 3, 4, 5, 6, 7]);
}

#[test]
fn result_chunks_pad_with_zero() {
    let sorted: Vec<u64> = (10..20).collect();
    assert_eq!(result_chunk(&sorted, 0), vec![10, 11, 12, 13, 14, 15, 16]);
    assert_eq!(result_chunk(&sorted, 7), vec![17, 18, 19, 0, 0, 0, 0]);
    assert_eq!(result_chunk(&sorted, 10), vec![0; PER_MSG]);
}

#[test]
fn worker_sorts_a_batch_and_waits_for_ack() {
    let mut w = SortWorker::new();
    assert!(matches!(w.step(TAG_DATA, &[5; 7]), WorkerAction::Nothing));
    assert_eq!(w.phase, WorkerPhase::WaitBatch);
    assert!(matches!(w.step(TAG_BATCH, &[10, 0, 0, 0, 0, 0, 0]), WorkerAction::Nothing));
    assert_eq!(w.phase, WorkerPhase::Receiving);
    assert!(matches!(w.step(TAG_ACK, &[0; 7]), WorkerAction::Nothing));
    assert!(matches!(w.step(TAG_DATA, &[9, 3, 7, 1, 8, 2, 6]), WorkerAction::Nothing));
    match w.step(TAG_DATA, &[5, 4, 0, 11, 12, 13, 14]) {
        WorkerAction::Reply(v) => assert_eq!(v, vec![0, 1, 2, 3, 4, 5, 6, 7, 8, 9]),
        _ => panic!("expected the sorted batch"),
    }
    assert_eq!(w.phase, WorkerPhase::WaitAck);
    assert!(w.buf.is_empty());
    assert!(matches!(w.step(TAG_DONE, &[0; 7]), WorkerAction::Nothing));
    assert!(matches!(w.step(TAG_ACK, &[0; 7]), WorkerAction::Nothing));
    assert_eq!(w.processed, 1);
    assert_eq!(w.phase, WorkerPhase::WaitBatch);
    assert!(matches!(w.step(TAG_DONE, &[0; 7]), WorkerAction::Exit));
    assert_eq!(w.phase, WorkerPhase::Finished);
    assert!(matches!(w.step(TAG_BATCH, &[3; 7]), WorkerAction::Nothing));
}

#[test]
fn empty_batch_is_answered_at_once() {
    let mut w = SortWorker::new();
    match w.step(TAG_BATCH, &[0; 7]) {
        WorkerAction::Reply(v) => assert!(v.is_empty()),
        _ => panic!("expected an empty reply"),
    }
    assert_eq!(w.phase, WorkerPhase::WaitAck);
    let full = [BATCH_SIZE as u64, 0, 0, 0, 0, 0, 0];
    w.step(TAG_ACK, &full);
    assert!(matches!(w.step(TAG_BATCH, &full), WorkerAction::Nothing));
    assert_eq!(w.batch_size, BATCH_SIZE);
}
