use logban::RingBanBuffer;

#[test]
fn fresh_buffer_gives_no_verdict_before_capacity() {
    let mut buffer = RingBanBuffer::new(3);
    assert_eq!(buffer.add_query(100), None);
    assert_eq!(buffer.add_query(110), None);
    assert_eq!(buffer.add_query(120), Some(20));
    assert_eq!(buffer.add_query(125), Some(15));
}

#[test]
fn every_call_from_the_kth_on_gives_a_delta() {
    for capacity in 1usize..6 {
        let mut buffer = RingBanBuffer::new(capacity);
        for call in 1usize..20 {
            let ts = (call as i64) * 7;
            let delta = buffer.add_query(ts);
            if call < capacity {
                assert_eq!(delta, None);
            } else {
                assert_eq!(delta, Some(((capacity - 1) as i64) * 7));
            }
        }
    }
}

#[test]
fn capacity_one_compares_a_request_with_itself() {
    let mut buffer = RingBanBuffer::new(1);
    assert_eq!(buffer.add_query(500), Some(0));
    assert_eq!(buffer.add_query(900), Some(0));
}

#[test]
fn delta_is_newest_minus_oldest() {
    let mut buffer = RingBanBuffer::new(2);
    assert_eq!(buffer.add_query(10), None);
    assert_eq!(buffer.add_query(3), Some(-7));
    assert_eq!(buffer.add_query(30), Some(27));
}

#[test]
fn delta_saturates_at_the_bounds() {
    let mut buffer = RingBanBuffer::new(2);
    assert_eq!(buffer.add_query(i64::MIN), None);
    assert_eq!(buffer.add_query(i64::MAX), Some(i64::MAX));
    assert_eq!(buffer.add_query(i64::MIN), Some(i64::MIN));
    assert_eq!(buffer.add_query(-1), Some(i64::MAX));
}

#[test]
fn flags_start_clear_and_stay_set() {
    let mut buffer = RingBanBuffer::new(2);
    assert!(!buffer.banned());
    assert!(!buffer.whitelisted());
    buffer.ban();
    assert!(buffer.banned());
    assert!(!buffer.whitelisted());
    buffer.whitelist();
    assert!(buffer.banned());
    assert!(buffer.whitelisted());
    buffer.add_query(1);
    buffer.add_query(2);
    assert!(buffer.banned);
    assert!(buffer.whitelisted);
}
