use liveness_tracker::entry::{TrackedEntry, DEFAULT_POLL_MS, DEFAULT_TTL_MS};

#[test]
fn default_policy_values() {
    assert_eq!(DEFAULT_TTL_MS, 5000);
    assert_eq!(DEFAULT_POLL_MS, 200);
}

#[test]
fn entry_is_due_exactly_at_the_time_to_live() {
    let e = TrackedEntry { port: 25565, last_confirmed: 1000 };
    assert!(!e.due(1000, 5000));
    assert!(!e.due(5999, 5000));
    assert!(e.due(6000, 5000));
    assert!(e.due(6001, 5000));
    assert!(e.due(u64::MAX, 5000));
}

#[test]
fn entry_is_not_due_when_the_clock_went_backwards() {
    let e = TrackedEntry { port: 25565, last_confirmed: 10_000 };
    assert!(!e.due(9_999, 5000));
    assert!(!e.due(0, 5000));
    assert!(!e.due(0, 0));
}

#[test]
fn entry_with_zero_time_to_live_is_due_at_once() {
    let e = TrackedEntry { port: 1, last_confirmed: 7 };
    assert!(e.due(7, 0));
    assert!(e.due(8, 0));
    assert!(!e.due(6, 0));
}

#[test]
fn entry_near_the_end_of_the_clock_does_not_overflow() {
    let e = TrackedEntry { port: 1, last_confirmed: u64::MAX - 10 };
    assert!(!e.due(u64::MAX, 5000));
    assert!(e.due(u64::MAX, 10));
    assert!(!e.due(u64::MAX, u64::MAX));
}

#[test]
fn settle_refreshes_a_reachable_entry() {
    let e = TrackedEntry { port: 443, last_confirmed: 1000 };
    assert_eq!(e.settle(6000, true), Some(TrackedEntry { port: 443, last_confirmed: 6000 }));
}

#[test]
fn settle_drops_an_unreachable_entry() {
    let e = TrackedEntry { port: 443, last_confirmed: 1000 };
    assert_eq!(e.settle(6000, false), None);
}
