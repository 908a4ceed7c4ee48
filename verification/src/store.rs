//! Bounded cache with per-entry expiry.
//!
//! The store maps stop identifiers to payloads. Every entry lapses a fixed
//! interval after it was written; a lapsed entry is treated as absent. The
//! entry count never exceeds the configured capacity: when a write would
//! overflow it, the least recently written entry is evicted. Reads are pure
//! probes and do not touch recency.

use vstd::prelude::*;

verus! {

/// One cache slot: the key, the payload cached for it, and the instant at
/// which the slot lapses.
pub struct Entry<V> {
    pub key: u32,
    pub value: V,
    pub expires_at: u64,
}

/// Mathematical state of a [`CacheStore`]: the slots in recency order (least
/// recently written first), the capacity bound, and the fixed time-to-live.
#[verifier::ext_equal]
pub ghost struct StoreModel<V> {
    pub entries: Seq<Entry<V>>,
    pub capacity: nat,
    pub ttl: u64,
}

impl<V> StoreModel<V> {
    /// No key occupies two slots, the capacity bound holds, and both
    /// configuration constants are positive.
    pub open spec fn wf(self) -> bool {
        &&& 1 <= self.capacity
        &&& 1 <= self.ttl
        &&& self.entries.len() <= self.capacity
        &&& forall|i: int, j: int|
            0 <= i < j < self.entries.len() ==> self.entries[i].key != self.entries[j].key
    }

    /// Some slot holds `key`, lapsed or not.
    pub open spec fn has_key(self, key: u32) -> bool {
        exists|i: int| 0 <= i < self.entries.len() && self.entries[i].key == key
    }

    /// The slot holding `key`; meaningful only when `has_key` holds.
    pub open spec fn slot_of(self, key: u32) -> int {
        choose|i: int| 0 <= i < self.entries.len() && self.entries[i].key == key
    }

    pub open spec fn entry_of(self, key: u32) -> Entry<V> {
        self.entries[self.slot_of(key)]
    }

    /// A key is fresh while the clock has not reached its expiry instant.
    pub open spec fn is_fresh(self, key: u32, now: u64) -> bool {
        self.has_key(key) && now < self.entry_of(key).expires_at
    }

    /// What a read of `key` at time `now` yields.
    pub open spec fn lookup(self, key: u32, now: u64) -> Option<V> {
        if self.is_fresh(key, now) {
            Some(self.entry_of(key).value)
        } else {
            None
        }
    }

    /// The store after writing `value` under `key` at time `now`: the slot
    /// already holding `key` is dropped, the least recently written slot is
    /// evicted if the store is still full, and the new entry is appended as
    /// the most recent, lapsing at `now + ttl`.
    pub open spec fn put(self, key: u32, value: V, now: u64) -> StoreModel<V>
        recommends
            self.wf(),
            now + self.ttl <= u64::MAX,
    {
        let cleared = if self.has_key(key) {
            self.entries.remove(self.slot_of(key))
        } else {
            self.entries
        };
        let trimmed = if cleared.len() >= self.capacity {
            cleared.remove(0)
        } else {
            cleared
        };
        StoreModel {
            entries: trimmed.push(
                Entry { key, value, expires_at: (now + self.ttl) as u64 },
            ),
            capacity: self.capacity,
            ttl: self.ttl,
        }
    }

    /// A write preserves well-formedness, and afterwards `key` alone
    /// occupies the newest slot: no earlier slot holds it.
    pub proof fn lemma_put_wf(self, key: u32, value: V, now: u64)
        requires
            self.wf(),
            now + self.ttl <= u64::MAX,
        ensures
            self.put(key, value, now).wf(),
            ({
                let after = self.put(key, value, now).entries;
                &&& after.len() >= 1
                &&& after[after.len() - 1]
                    == (Entry { key, value, expires_at: (now + self.ttl) as u64 })
                &&& forall|t: int| 0 <= t < after.len() - 1 ==> after[t].key != key
            }),
    {
        let s = self.entries;
        let cleared = if self.has_key(key) {
            s.remove(self.slot_of(key))
        } else {
            s
        };
        if self.has_key(key) {
            let i = self.slot_of(key);
            assert(0 <= i < s.len() && s[i].key == key);
            s.remove_ensures(i);
            assert forall|a: int, b: int|
                0 <= a < b < cleared.len() implies cleared[a].key != cleared[b].key by {
                let a0: int = if a < i { a } else { a + 1 };
                let b0: int = if b < i { b } else { b + 1 };
                assert(cleared[a] == s[a0]);
                assert(cleared[b] == s[b0]);
            };
            assert forall|t: int| 0 <= t < cleared.len() implies cleared[t].key != key by {
                let t0: int = if t < i { t } else { t + 1 };
                assert(cleared[t] == s[t0]);
                if s[t0].key == key {
                    self.lemma_slot_unique(key, t0);
                }
            };
        } else {
            assert forall|t: int| 0 <= t < cleared.len() implies cleared[t].key != key by {
                if cleared[t].key == key {
                    assert(0 <= t < s.len() && s[t].key == key);
                }
            };
        }
        let trimmed = if cleared.len() >= self.capacity {
            cleared.remove(0)
        } else {
            cleared
        };
        if cleared.len() >= self.capacity {
            cleared.remove_ensures(0);
            assert forall|a: int, b: int|
                0 <= a < b < trimmed.len() implies trimmed[a].key != trimmed[b].key by {
                assert(trimmed[a] == cleared[a + 1]);
                assert(trimmed[b] == cleared[b + 1]);
            };
            assert forall|t: int| 0 <= t < trimmed.len() implies trimmed[t].key != key by {
                assert(trimmed[t] == cleared[t + 1]);
            };
        }
        let e = Entry { key, value, expires_at: (now + self.ttl) as u64 };
        let after = trimmed.push(e);
        assert forall|a: int, b: int|
            0 <= a < b < after.len() implies after[a].key != after[b].key by {
            if b < after.len() - 1 {
                assert(after[a] == trimmed[a]);
                assert(after[b] == trimmed[b]);
            } else {
                assert(after[a] == trimmed[a]);
                assert(after[b] == e);
            }
        };
    }

    /// Freshness: after `value` is written under `key` at `t0`, a probe at
    /// `t1` yields exactly that value while `t1` precedes `t0 + ttl`, and
    /// yields nothing from `t0 + ttl` on.
    pub proof fn lemma_freshness(self, key: u32, value: V, t0: u64, t1: u64)
        requires
            self.wf(),
            t0 + self.ttl <= u64::MAX,
        ensures
            t1 < t0 + self.ttl ==> self.put(key, value, t0).lookup(key, t1) == Some(value),
            t1 >= t0 + self.ttl ==> self.put(key, value, t0).lookup(key, t1) is None,
    {
        self.lemma_put_wf(key, value, t0);
        let after = self.put(key, value, t0);
        let n = after.entries.len();
        after.lemma_slot_unique(key, n - 1);
        assert(after.entry_of(key) == (Entry {
            key,
            value,
            expires_at: (t0 + self.ttl) as u64,
        }));
    }

    /// Once a key reads as absent, it stays absent at every later instant,
    /// as long as nothing is written.
    pub proof fn lemma_stale_monotone(self, key: u32, t1: u64, t2: u64)
        requires
            !self.is_fresh(key, t1),
            t1 <= t2,
        ensures
            !self.is_fresh(key, t2),
    {
    }

    /// Capacity bound and eviction choice: a write never pushes the slot
    /// count over the capacity; the written key is present afterwards; when
    /// a write of a new key meets a full store, the evicted entry is the
    /// least recently written one and every other key survives; otherwise no
    /// key is lost at all.
    pub proof fn lemma_capacity(self, key: u32, value: V, now: u64)
        requires
            self.wf(),
            now + self.ttl <= u64::MAX,
        ensures
            self.put(key, value, now).entries.len() <= self.capacity,
            self.put(key, value, now).has_key(key),
            (!self.has_key(key) && self.entries.len() == self.capacity) ==> ({
                let after = self.put(key, value, now);
                let victim = self.entries[0].key;
                &&& !after.has_key(victim)
                &&& forall|k2: u32| self.has_key(k2) && k2 != victim ==> after.has_key(k2)
            }),
            !(!self.has_key(key) && self.entries.len() == self.capacity) ==> ({
                let after = self.put(key, value, now);
                forall|k2: u32| self.has_key(k2) ==> after.has_key(k2)
            }),
    {
        self.lemma_put_wf(key, value, now);
        let s = self.entries;
        let after = self.put(key, value, now);
        let n = after.entries.len();
        after.lemma_slot_unique(key, n - 1);
        if !self.has_key(key) && s.len() == self.capacity {
            let victim = s[0].key;
            let trimmed = s.remove(0);
            s.remove_ensures(0);
            assert(after.entries =~= trimmed.push(after.entries[n - 1]));
            assert(!after.has_key(victim)) by {
                if after.has_key(victim) {
                    let t = after.slot_of(victim);
                    assert(0 <= t < n && after.entries[t].key == victim);
                    if t < n - 1 {
                        assert(after.entries[t] == s[t + 1]);
                        assert(s[0].key != s[t + 1].key);
                    } else {
                        assert(0 <= 0 < s.len() && s[0].key == victim);
                    }
                }
            };
            assert forall|k2: u32|
                self.has_key(k2) && k2 != victim implies after.has_key(k2) by {
                let j = self.slot_of(k2);
                assert(0 <= j < s.len() && s[j].key == k2);
                if j == 0 {
                    assert(k2 == victim);
                } else {
                    assert(after.entries[j - 1] == s[j]);
                    assert(after.entries[j - 1].key == k2);
                }
            };
        } else {
            assert forall|k2: u32| self.has_key(k2) implies after.has_key(k2) by {
                let j = self.slot_of(k2);
                assert(0 <= j < s.len() && s[j].key == k2);
                if k2 == key {
                    assert(after.entries[n - 1].key == key);
                } else {
                    if self.has_key(key) {
                        let i = self.slot_of(key);
                        let cleared = s.remove(i);
                        s.remove_ensures(i);
                        assert(cleared.len() < self.capacity);
                        assert(j != i);
                        if j < i {
                            assert(after.entries[j] == s[j]);
                            assert(after.entries[j].key == k2);
                        } else {
                            assert(after.entries[j - 1] == s[j]);
                            assert(after.entries[j - 1].key == k2);
                        }
                    } else {
                        assert(s.len() < self.capacity);
                        assert(after.entries[j] == s[j]);
                        assert(after.entries[j].key == k2);
                    }
                }
            };
        }
    }

    /// Whichever slot holds `key`, it is the one `slot_of` names: keys are
    /// unique in a well-formed store.
    pub proof fn lemma_slot_unique(self, key: u32, i: int)
        requires
            self.wf(),
            0 <= i < self.entries.len(),
            self.entries[i].key == key,
        ensures
            self.has_key(key),
            self.slot_of(key) == i,
    {
        assert(self.has_key(key));
        let j = self.slot_of(key);
        assert(0 <= j < self.entries.len() && self.entries[j].key == key);
        if i < j {
            assert(self.entries[i].key != self.entries[j].key);
        } else if j < i {
            assert(self.entries[j].key != self.entries[i].key);
        }
    }
}

/// Bounded read-through cache keyed by stop identifier, generic in the
/// payload it holds. All methods take the current time as an argument; the
/// store itself never reads a clock.
pub struct CacheStore<V> {
    entries: Vec<Entry<V>>,
    capacity: usize,
    ttl: u64,
}

impl<V> CacheStore<V> {
    /// The abstract state this store realises.
    pub closed spec fn model(self) -> StoreModel<V> {
        StoreModel { entries: self.entries@, capacity: self.capacity as nat, ttl: self.ttl }
    }

    pub open spec fn wf(self) -> bool {
        self.model().wf()
    }

    /// An empty store that holds at most `capacity` entries, each lapsing
    /// `ttl` time units after it is written.
    pub fn new(capacity: usize, ttl: u64) -> (s: Self)
        requires
            1 <= capacity,
            1 <= ttl,
        ensures
            s.wf(),
            s.model().entries == Seq::<Entry<V>>::empty(),
            s.model().capacity == capacity as nat,
            s.model().ttl == ttl,
    {
        CacheStore { entries: Vec::new(), capacity, ttl }
    }

    pub fn capacity(&self) -> (c: usize)
        ensures
            c as nat == self.model().capacity,
    {
        self.capacity
    }

    pub fn ttl(&self) -> (t: u64)
        ensures
            t == self.model().ttl,
    {
        self.ttl
    }

    /// The slot index currently holding `key`, if any.
    fn find(&self, key: u32) -> (r: Option<usize>)
        requires
            self.wf(),
        ensures
            match r {
                Some(i) => self.model().has_key(key) && self.model().slot_of(key) == i,
                None => !self.model().has_key(key),
            },
    {
        let n = self.entries.len();
        let mut idx: usize = 0;
        while idx < n
            invariant
                self.wf(),
                n == self.model().entries.len(),
                idx <= n,
                forall|t: int| 0 <= t < idx ==> self.model().entries[t].key != key,
            decreases n - idx,
        {
            if self.entries[idx].key == key {
                proof {
                    self.model().lemma_slot_unique(key, idx as int);
                }
                return Some(idx);
            }
            idx += 1;
        }
        proof {
            if self.model().has_key(key) {
                let j = self.model().slot_of(key);
                assert(0 <= j < self.model().entries.len()
                    && self.model().entries[j].key == key);
            }
        }
        None
    }

    /// Pure probe: the payload under `key` if a slot holds it and it has not
    /// lapsed by `now`, else nothing. Recency is untouched.
    pub fn peek(&self, key: u32, now: u64) -> (r: Option<&V>)
        requires
            self.wf(),
        ensures
            match r {
                Some(v) => self.model().lookup(key, now) == Some(*v),
                None => self.model().lookup(key, now) is None,
            },
    {
        match self.find(key) {
            Some(i) => {
                let e = &self.entries[i];
                if now < e.expires_at {
                    Some(&e.value)
                } else {
                    None
                }
            },
            None => None,
        }
    }

    /// Write `value` under `key` at time `now`. The new entry lapses at
    /// `now + ttl`; if the write would overflow the capacity, the least
    /// recently written entry is evicted first.
    pub fn put(&mut self, key: u32, value: V, now: u64)
        requires
            old(self).wf(),
            now + old(self).model().ttl <= u64::MAX,
        ensures
            final(self).model() == old(self).model().put(key, value, now),
            final(self).wf(),
    {
        proof {
            old(self).model().lemma_put_wf(key, value, now);
        }
        match self.find(key) {
            Some(i) => {
                proof {
                    let m = self.model();
                    assert(0 <= m.slot_of(key) < m.entries.len());
                }
                self.entries.remove(i);
            },
            None => {},
        }
        if self.entries.len() >= self.capacity {
            self.entries.remove(0);
        }
        let expires_at = now + self.ttl;
        self.entries.push(Entry { key, value, expires_at });
        proof {
            assert(self.model() =~= old(self).model().put(key, value, now));
        }
    }
}

} // verus!
