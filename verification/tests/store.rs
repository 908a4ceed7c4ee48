use justbus::store::CacheStore;

#[test]
fn empty_store_reads_absent() {
    let s = CacheStore::<&str>::new(4, 60);
    assert_eq!(s.peek(1, 0), None);
    assert_eq!(s.capacity(), 4);
    assert_eq!(s.ttl(), 60);
}

#[test]
fn capacity_two_evicts_least_recent() {
    // capacity = 2, TTL = 60: writing a third key evicts the least
    // recently written one.
    let mut s = CacheStore::new(2, 60);
    s.put(1, "A", 0);
    s.put(2, "B", 0);
    s.put(3, "C", 0);
    assert_eq!(s.peek(1, 0), None);
    assert_eq!(s.peek(2, 0), Some(&"B"));
    assert_eq!(s.peek(3, 0), Some(&"C"));
}

#[test]
fn entry_lapses_at_ttl() {
    // TTL = 1000 time units: fresh strictly before the expiry instant,
    // absent from it on.
    let mut s = CacheStore::new(4, 1000);
    s.put(5, "X", 0);
    assert_eq!(s.peek(5, 500), Some(&"X"));
    assert_eq!(s.peek(5, 999), Some(&"X"));
    assert_eq!(s.peek(5, 1000), None);
    assert_eq!(s.peek(5, 1500), None);
}

#[test]
fn rewrite_replaces_value_and_expiry() {
    let mut s = CacheStore::new(4, 60);
    s.put(1, "old", 0);
    s.put(1, "new", 50);
    assert_eq!(s.peek(1, 100), Some(&"new"));
    assert_eq!(s.peek(1, 110), None);
}

#[test]
fn peek_does_not_refresh_recency() {
    // A probe is not a mutating access: key 1, probed but never rewritten,
    // is still the eviction victim.
    let mut s = CacheStore::new(2, 60);
    s.put(1, "A", 0);
    s.put(2, "B", 1);
    assert_eq!(s.peek(1, 2), Some(&"A"));
    s.put(3, "C", 3);
    assert_eq!(s.peek(1, 3), None);
    assert_eq!(s.peek(2, 3), Some(&"B"));
    assert_eq!(s.peek(3, 3), Some(&"C"));
}

#[test]
fn rewrite_counts_as_recent_use() {
    // Rewriting key 1 makes key 2 the least recently written, so key 2 is
    // the one evicted on overflow.
    let mut s = CacheStore::new(2, 60);
    s.put(1, "A", 0);
    s.put(2, "B", 1);
    s.put(1, "A2", 2);
    s.put(3, "C", 3);
    assert_eq!(s.peek(2, 3), None);
    assert_eq!(s.peek(1, 3), Some(&"A2"));
    assert_eq!(s.peek(3, 3), Some(&"C"));
}

#[test]
fn count_never_exceeds_capacity() {
    let mut s = CacheStore::new(3, 1000);
    for k in 0u32..10 {
        s.put(k, k * 10, u64::from(k));
    }
    let live: usize = (0u32..10).filter(|k| s.peek(*k, 10).is_some()).count();
    assert_eq!(live, 3);
    assert_eq!(s.peek(7, 10), Some(&70));
    assert_eq!(s.peek(8, 10), Some(&80));
    assert_eq!(s.peek(9, 10), Some(&90));
}
