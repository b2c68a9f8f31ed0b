use findex_cloud::error::Error;
use findex_cloud::remote::{
    after_conditional_write, batch_bounds, plan_upsert_entry, rejected_from_read,
    ConditionalWrite, WriteOutcome, MAX_READ_ELEMENTS, MAX_WRITE_ELEMENTS,
};
use findex_cloud::storage::{after_timeout_read, TimeoutStep, UpsertRow};

#[test]
fn plan_insert_if_absent() {
    let row = UpsertRow { uid: vec![1u8; 32], old_value: None, new_value: vec![0xAA] };
    match plan_upsert_entry(b"abcde", &row) {
        ConditionalWrite::PutIfAbsent { item_id, value } => {
            assert_eq!(&item_id[..5], b"abcde");
            assert_eq!(&item_id[5..], &[1u8; 32][..]);
            assert_eq!(value, vec![0xAA]);
        }
        other => panic!("unexpected {other:?}"),
    }
}

#[test]
fn plan_update_if_equal() {
    let row = UpsertRow { uid: vec![2u8; 32], old_value: Some(vec![0xAA]), new_value: vec![0xDD] };
    match plan_upsert_entry(b"abcde", &row) {
        ConditionalWrite::UpdateIfEqual { item_id, old, new } => {
            assert_eq!(item_id.len(), 37);
            assert_eq!(old, vec![0xAA]);
            assert_eq!(new, vec![0xDD]);
        }
        other => panic!("unexpected {other:?}"),
    }
}

#[test]
fn conditional_write_outcomes() {
    assert!(matches!(after_conditional_write(WriteOutcome::Written), Ok(false)));
    assert!(matches!(after_conditional_write(WriteOutcome::ConditionFailed), Ok(true)));
    match after_conditional_write(WriteOutcome::Failed("throttled".to_string())) {
        Err(Error::Storage(m)) => assert_eq!(m, "throttled"),
        other => panic!("unexpected {other:?}"),
    }
    assert_eq!(rejected_from_read(&vec![3u8; 32], Some(vec![7, 7])), (vec![3u8; 32], vec![7, 7]));
    assert_eq!(rejected_from_read(&vec![3u8; 32], None), (vec![3u8; 32], vec![]));
}

#[test]
fn batches() {
    assert!(batch_bounds(0, MAX_READ_ELEMENTS).is_empty());
    assert_eq!(batch_bounds(250, MAX_READ_ELEMENTS), vec![(0, 100), (100, 200), (200, 250)]);
    assert_eq!(batch_bounds(50, MAX_WRITE_ELEMENTS), vec![(0, 25), (25, 50)]);
    assert_eq!(batch_bounds(3, MAX_WRITE_ELEMENTS), vec![(0, 3)]);
}

#[test]
fn lock_timeout_reads() {
    assert!(matches!(after_timeout_read(1, Some(vec![4])), TimeoutStep::Reject(v) if v == vec![4]));
    assert!(matches!(after_timeout_read(1, None), TimeoutStep::ReadAgain));
    assert!(matches!(after_timeout_read(2, None), TimeoutStep::ReadAgain));
    assert!(matches!(after_timeout_read(3, None), TimeoutStep::GiveUp));
    assert!(matches!(after_timeout_read(3, Some(vec![])), TimeoutStep::Reject(v) if v.is_empty()));
}
