use logban::{daily_token, BanTracker, ParseResult};

fn ip(a: u8, b: u8, c: u8, d: u8) -> u32 {
    u32::from_be_bytes([a, b, c, d])
}

#[test]
fn three_requests_within_thirty_seconds_ban() {
    let mut tracker = BanTracker::new(3, 30, None);
    let addr = ip(1, 2, 3, 4);
    tracker.observe(addr, 100, false);
    tracker.observe(addr, 110, false);
    assert_eq!(tracker.banned_ips(), Vec::<u32>::new());
    tracker.observe(addr, 120, false);
    assert_eq!(tracker.banned_ips(), vec![addr]);
    tracker.observe(addr, 125, false);
    assert_eq!(tracker.banned_ips(), vec![addr]);
}

#[test]
fn three_requests_over_a_hundred_seconds_do_not_ban() {
    let mut tracker = BanTracker::new(3, 30, None);
    let addr = ip(1, 2, 3, 4);
    for ts in [100i64, 150, 200, 260] {
        tracker.observe(addr, ts, false);
        assert_eq!(tracker.banned_ips(), Vec::<u32>::new());
    }
    assert_eq!(tracker.len(), 1);
}

#[test]
fn the_period_itself_still_bans() {
    let mut at_limit = BanTracker::new(2, 30, None);
    at_limit.observe(7, 100, false);
    at_limit.observe(7, 130, false);
    assert_eq!(at_limit.banned_ips(), vec![7]);
    let mut over_limit = BanTracker::new(2, 30, None);
    over_limit.observe(7, 100, false);
    over_limit.observe(7, 131, false);
    assert_eq!(over_limit.banned_ips(), Vec::<u32>::new());
}

#[test]
fn a_single_request_bans_when_one_request_is_the_threshold() {
    let mut tracker = BanTracker::new(1, 0, None);
    tracker.observe(9, 12345, false);
    assert_eq!(tracker.banned_ips(), vec![9]);
}

#[test]
fn a_ban_is_permanent() {
    let mut tracker = BanTracker::new(2, 10, None);
    tracker.observe(5, 0, false);
    tracker.observe(5, 1, false);
    assert_eq!(tracker.banned_ips(), vec![5]);
    for ts in [1000i64, 5000, 90000, 1_000_000] {
        tracker.observe(5, ts, false);
        assert_eq!(tracker.banned_ips(), vec![5]);
    }
}

#[test]
fn the_token_whitelists_for_the_rest_of_the_run() {
    let token = daily_token("20220525", "s3cr3t");
    assert_eq!(token, b"85a19a33fc01dfdbab47564bcfe31868".to_vec());
    let mut tracker = BanTracker::new(3, 30, Some(token));
    let addr = ip(9, 9, 9, 9);
    let plain = b"9.9.9.9 - - [25/May/2022:10:36:11 +0300] \"GET / HTTP/1.1\"";
    let signed =
        b"9.9.9.9 - - [25/May/2022:10:36:12 +0300] \"GET /?t=85a19a33fc01dfdbab47564bcfe31868 HTTP/1.1\"";
    assert!(!tracker.has_token(plain));
    assert!(tracker.has_token(signed));
    tracker.update(&ParseResult { ip: addr, timestamp: 38172 }, signed);
    for ts in [38173i64, 38174, 38175, 38176] {
        tracker.update(&ParseResult { ip: addr, timestamp: ts }, plain);
    }
    assert_eq!(tracker.banned_ips(), Vec::<u32>::new());
    assert_eq!(tracker.len(), 1);
}

#[test]
fn the_token_overrides_an_earlier_ban() {
    let mut tracker = BanTracker::new(2, 30, Some(b"tok".to_vec()));
    tracker.update(&ParseResult { ip: 1, timestamp: 10 }, b"first");
    tracker.update(&ParseResult { ip: 1, timestamp: 11 }, b"second");
    tracker.update(&ParseResult { ip: 2, timestamp: 10 }, b"first");
    tracker.update(&ParseResult { ip: 2, timestamp: 11 }, b"second");
    let mut banned = tracker.banned_ips();
    banned.sort();
    assert_eq!(banned, vec![1, 2]);
    tracker.update(&ParseResult { ip: 1, timestamp: 12 }, b"with tok inside");
    assert_eq!(tracker.banned_ips(), vec![2]);
}

#[test]
fn a_line_with_the_token_is_not_counted() {
    let mut tracker = BanTracker::new(2, 30, Some(b"tok".to_vec()));
    tracker.update(&ParseResult { ip: 3, timestamp: 10 }, b"plain");
    tracker.update(&ParseResult { ip: 4, timestamp: 10 }, b"tok");
    tracker.update(&ParseResult { ip: 4, timestamp: 11 }, b"plain");
    assert_eq!(tracker.banned_ips(), Vec::<u32>::new());
    assert_eq!(tracker.len(), 2);
}

#[test]
fn without_a_token_no_line_carries_it() {
    let tracker = BanTracker::new(2, 30, None);
    assert!(!tracker.has_token(b""));
    assert!(!tracker.has_token(b"85a19a33fc01dfdbab47564bcfe31868"));
}

#[test]
fn addresses_are_tracked_apart_and_listed_once() {
    let mut tracker = BanTracker::new(2, 5, None);
    for round in 0i64..3 {
        for addr in 0u32..50 {
            let gap = if addr % 2 == 0 { 1 } else { 100 };
            tracker.observe(addr, round * gap, false);
        }
    }
    let mut banned = tracker.banned_ips();
    banned.sort();
    let expected: Vec<u32> = (0u32..50).filter(|a| a % 2 == 0).collect();
    assert_eq!(banned, expected);
    assert_eq!(tracker.len(), 50);
}
