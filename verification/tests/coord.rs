use justbus::coord::Coordinator;
use justbus::coord::GetDecision;

#[test]
fn concurrent_misses_share_one_fetch() {
    // Two `get(7)` calls overlap while the cache is empty: the first leads
    // the single upstream fetch, the second follows it, and both end up
    // with the fetched value.
    let mut c = Coordinator::new(4, 60);
    assert_eq!(c.on_get(7, 0), GetDecision::Lead);
    assert_eq!(c.on_get(7, 0), GetDecision::Follow);
    let followers = c.on_fetch_success(7, "Y", 0);
    assert_eq!(followers, 1);
    // The leader returns the fetched value; each follower is handed the
    // same published value, which is what the cache now holds.
    assert_eq!(c.peek(7, 0), Some(&"Y"));
    assert!(!c.is_in_flight(7));
}

#[test]
fn many_followers_one_flight() {
    let mut c = Coordinator::new(4, 60);
    assert_eq!(c.on_get(3, 0), GetDecision::Lead);
    assert_eq!(c.on_get(3, 1), GetDecision::Follow);
    assert_eq!(c.on_get(3, 2), GetDecision::Follow);
    assert_eq!(c.on_get(3, 3), GetDecision::Follow);
    assert_eq!(c.on_fetch_success(3, 42, 4), 3);
}

#[test]
fn fresh_hit_skips_the_flight_table() {
    let mut c = Coordinator::new(4, 60);
    assert_eq!(c.on_get(5, 0), GetDecision::Lead);
    c.on_fetch_success(5, "V", 0);
    assert_eq!(c.on_get(5, 30), GetDecision::Hit);
    assert!(!c.is_in_flight(5));
    assert_eq!(c.peek(5, 30), Some(&"V"));
}

#[test]
fn lapsed_entry_triggers_a_new_fetch() {
    let mut c = Coordinator::new(4, 60);
    assert_eq!(c.on_get(5, 0), GetDecision::Lead);
    c.on_fetch_success(5, "V", 0);
    assert_eq!(c.peek(5, 60), None);
    assert_eq!(c.on_get(5, 60), GetDecision::Lead);
}

#[test]
fn failure_is_not_cached() {
    // An upstream failure is published to the waiters but never stored:
    // the very next `get` for the key starts a fresh fetch attempt.
    let mut c = Coordinator::new(4, 60);
    assert_eq!(c.on_get(9, 0), GetDecision::Lead);
    assert_eq!(c.on_get(9, 0), GetDecision::Follow);
    let followers = c.on_fetch_failure(9);
    assert_eq!(followers, 1);
    let probed: Option<&&str> = c.peek(9, 1);
    assert_eq!(probed, None);
    assert!(!c.is_in_flight(9));
    assert_eq!(c.on_get(9, 1), GetDecision::Lead);
}

#[test]
fn distinct_keys_use_distinct_flights() {
    // A miss on one key neither blocks nor joins the flight of another.
    let mut c = Coordinator::new(4, 60);
    assert_eq!(c.on_get(1, 0), GetDecision::Lead);
    assert_eq!(c.on_get(2, 0), GetDecision::Lead);
    assert!(c.is_in_flight(1));
    assert!(c.is_in_flight(2));
    let followers = c.on_fetch_failure(1);
    assert_eq!(followers, 0);
    assert!(!c.is_in_flight(1));
    assert!(c.is_in_flight(2));
    assert_eq!(c.on_fetch_success(2, "B", 0), 0);
    assert_eq!(c.peek(1, 0), None);
    assert_eq!(c.peek(2, 0), Some(&"B"));
}

#[test]
fn success_for_one_key_leaves_other_flights_alone() {
    let mut c = Coordinator::new(4, 60);
    assert_eq!(c.on_get(1, 0), GetDecision::Lead);
    assert_eq!(c.on_get(2, 0), GetDecision::Lead);
    assert_eq!(c.on_get(2, 0), GetDecision::Follow);
    c.on_fetch_success(1, "A", 0);
    assert!(c.is_in_flight(2));
    assert_eq!(c.on_fetch_success(2, "B", 0), 1);
}

#[test]
fn configuration_is_kept() {
    let c = Coordinator::<u32>::new(8, 15);
    assert_eq!(c.capacity(), 8);
    assert_eq!(c.ttl(), 15);
}
