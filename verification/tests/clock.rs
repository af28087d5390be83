use rank_match_server::clock::Timestamp;

#[test]
fn timestamp_rejects_whole_second_of_nanos() {
    assert!(Timestamp::new(5, 1_000_000_000).is_none());
    let t = Timestamp::new(5, 999_999_999).unwrap();
    assert_eq!(t.secs(), 5);
    assert_eq!(t.subsec_nanos(), 999_999_999);
}

#[test]
fn elapsed_whole_seconds() {
    let start = Timestamp::new(10, 500_000_000).unwrap();
    assert_eq!(start.elapsed_secs_at(start), Some(0));
    assert_eq!(start.elapsed_secs_at(Timestamp::new(12, 400_000_000).unwrap()), Some(1));
    assert_eq!(start.elapsed_secs_at(Timestamp::new(12, 500_000_000).unwrap()), Some(2));
    assert_eq!(start.elapsed_secs_at(Timestamp::new(10, 499_999_999).unwrap()), None);
    assert_eq!(start.elapsed_secs_at(Timestamp::from_secs(9)), None);
    let first = Timestamp::from_secs(i64::MIN);
    let last = Timestamp::new(i64::MAX, 999_999_999).unwrap();
    assert_eq!(first.elapsed_secs_at(last), Some(u64::MAX));
    let before = Timestamp::new(-2, 700_000_000).unwrap();
    assert_eq!(before.elapsed_secs_at(Timestamp::from_secs(1)), Some(2));
    assert_eq!(before.elapsed_secs_at(Timestamp::new(1, 700_000_000).unwrap()), Some(3));
}

#[test]
fn clock_reads_present_time() {
    let t = Timestamp::now();
    // 2020-09-13 in seconds since the epoch
    assert!(t.secs() > 1_600_000_000);
    assert!(t.subsec_nanos() < 1_000_000_000);
    let later = Timestamp::now();
    assert!(t.elapsed_secs_at(later).is_some());
}

#[test]
fn epoch_offsets_before_and_after() {
    let after = Timestamp::from_epoch_offset(false, 5, 250);
    assert_eq!((after.secs(), after.subsec_nanos()), (5, 250));
    let before = Timestamp::from_epoch_offset(true, 5, 250);
    assert_eq!((before.secs(), before.subsec_nanos()), (-6, 999_999_750));
    let before_whole = Timestamp::from_epoch_offset(true, 5, 0);
    assert_eq!((before_whole.secs(), before_whole.subsec_nanos()), (-5, 0));
    assert_eq!(before.elapsed_secs_at(after), Some(10));
    let far = Timestamp::from_epoch_offset(false, u64::MAX, 7);
    assert_eq!((far.secs(), far.subsec_nanos()), (i64::MAX, 0));
    let far_before = Timestamp::from_epoch_offset(true, u64::MAX, 7);
    assert_eq!((far_before.secs(), far_before.subsec_nanos()), (i64::MIN, 0));
}
