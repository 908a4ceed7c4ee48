//! Coordination of concurrent misses: the single-flight policy.
//!
//! The coordinator wraps the cache with a table of in-flight fetches. A
//! `get` first probes the cache; on a miss it either registers a new flight
//! for the key (the caller becomes the leader and performs the one upstream
//! fetch) or joins the flight already registered (the caller becomes a
//! follower and awaits the leader's outcome). When the fetch completes, a
//! success enters the cache and a failure does not; either way the flight is
//! retired and every waiter receives the same outcome.
//!
//! The caller must present the probe-and-register step (`on_get`) and the
//! completion steps as atomic with respect to one another — one lock around
//! the coordinator, or one sequential task that owns it.

use crate::store::CacheStore;
use crate::store::Entry;
use crate::store::StoreModel;
use vstd::prelude::*;

verus! {

/// How a `get` call proceeds after probing the cache and the in-flight
/// table.
#[derive(Clone, Copy, Debug, PartialEq, Eq, Structural)]
pub enum GetDecision {
    /// A fresh entry exists; answer from the cache.
    Hit,
    /// No fresh entry and no fetch in flight; the caller starts the fetch.
    Lead,
    /// A fetch for the key is already in flight; the caller awaits it.
    Follow,
}

/// One in-flight fetch: the key being fetched and how many followers await
/// its outcome besides the leader.
#[derive(Clone, Copy, Debug)]
pub struct Flight {
    pub key: u32,
    pub followers: u64,
}

/// Mathematical state of a [`Coordinator`]: the cache store and the table
/// of in-flight fetches, in the order they were registered.
#[verifier::ext_equal]
pub ghost struct CoordModel<V> {
    pub store: StoreModel<V>,
    pub flights: Seq<Flight>,
}

impl<V> CoordModel<V> {
    /// The store is well formed and no key has two in-flight records.
    pub open spec fn wf(self) -> bool {
        &&& self.store.wf()
        &&& forall|i: int, j: int|
            0 <= i < j < self.flights.len() ==> self.flights[i].key != self.flights[j].key
    }

    /// A fetch for `key` is currently running.
    pub open spec fn in_flight(self, key: u32) -> bool {
        exists|i: int| 0 <= i < self.flights.len() && self.flights[i].key == key
    }

    /// The record of the flight for `key`; meaningful only while `in_flight`
    /// holds.
    pub open spec fn flight_slot(self, key: u32) -> int {
        choose|i: int| 0 <= i < self.flights.len() && self.flights[i].key == key
    }

    /// How many followers await the flight for `key`.
    pub open spec fn followers_of(self, key: u32) -> u64 {
        self.flights[self.flight_slot(key)].followers
    }

    /// How a `get` for `key` at time `now` proceeds in this state.
    pub open spec fn decision_of(self, key: u32, now: u64) -> GetDecision {
        if self.store.is_fresh(key, now) {
            GetDecision::Hit
        } else if self.in_flight(key) {
            GetDecision::Follow
        } else {
            GetDecision::Lead
        }
    }

    /// The state after that `get`: a hit changes nothing; a follower joins
    /// the existing flight; a leader registers a new flight with no
    /// followers yet.
    pub open spec fn step_get(self, key: u32, now: u64) -> CoordModel<V> {
        if self.store.is_fresh(key, now) {
            self
        } else if self.in_flight(key) {
            let i = self.flight_slot(key);
            let f = self.flights[i].followers;
            let bumped: u64 = if f < u64::MAX { (f + 1) as u64 } else { f };
            CoordModel {
                store: self.store,
                flights: self.flights.update(i, Flight { key, followers: bumped }),
            }
        } else {
            CoordModel {
                store: self.store,
                flights: self.flights.push(Flight { key, followers: 0 }),
            }
        }
    }

    /// The state after the leader's fetch for `key` returns `value` at time
    /// `now`: the value enters the store and the flight is retired.
    pub open spec fn step_success(self, key: u32, value: V, now: u64) -> CoordModel<V>
        recommends
            self.in_flight(key),
    {
        CoordModel {
            store: self.store.put(key, value, now),
            flights: self.flights.remove(self.flight_slot(key)),
        }
    }

    /// The state after the leader's fetch for `key` fails: the store is
    /// untouched and the flight is retired.
    pub open spec fn step_failure(self, key: u32) -> CoordModel<V>
        recommends
            self.in_flight(key),
    {
        CoordModel { store: self.store, flights: self.flights.remove(self.flight_slot(key)) }
    }

    /// The state after a batch of `get` calls for `key`, one at each time
    /// in `ts`, in order.
    pub open spec fn run_gets(self, key: u32, ts: Seq<u64>) -> CoordModel<V>
        decreases ts.len(),
    {
        if ts.len() == 0 {
            self
        } else {
            self.step_get(key, ts[0]).run_gets(key, ts.drop_first())
        }
    }

    /// How many of those `get` calls are told to lead a fetch of their own.
    pub open spec fn lead_count(self, key: u32, ts: Seq<u64>) -> nat
        decreases ts.len(),
    {
        if ts.len() == 0 {
            0
        } else {
            (if self.decision_of(key, ts[0]) is Lead {
                1nat
            } else {
                0nat
            }) + self.step_get(key, ts[0]).lead_count(key, ts.drop_first())
        }
    }

    /// Whichever record holds `key`, it is the one `flight_slot` names:
    /// keys are unique in a well-formed flight table.
    pub proof fn lemma_flight_slot_unique(self, key: u32, i: int)
        requires
            self.wf(),
            0 <= i < self.flights.len(),
            self.flights[i].key == key,
        ensures
            self.in_flight(key),
            self.flight_slot(key) == i,
    {
        assert(self.in_flight(key));
        let j = self.flight_slot(key);
        assert(0 <= j < self.flights.len() && self.flights[j].key == key);
        if i < j {
            assert(self.flights[i].key != self.flights[j].key);
        } else if j < i {
            assert(self.flights[j].key != self.flights[i].key);
        }
    }

    /// A `get` preserves well-formedness and the store, settles the flight
    /// for its own key as the decision says, and leaves every other key's
    /// flight exactly as it was.
    pub proof fn lemma_step_get_wf(self, key: u32, now: u64)
        requires
            self.wf(),
        ensures
            self.step_get(key, now).wf(),
            self.step_get(key, now).store == self.store,
            self.step_get(key, now).in_flight(key) == (self.in_flight(key)
                || self.decision_of(key, now) is Lead),
            self.decision_of(key, now) is Hit ==> self.step_get(key, now) == self,
            self.decision_of(key, now) is Lead ==> self.step_get(key, now).followers_of(key)
                == 0,
            self.decision_of(key, now) is Follow ==> self.step_get(key, now).followers_of(key)
                == (if self.followers_of(key) < u64::MAX {
                    self.followers_of(key) + 1
                } else {
                    self.followers_of(key) as int
                }),
            forall|k2: u32| k2 != key ==> self.step_get(key, now).in_flight(k2)
                == self.in_flight(k2),
            forall|k2: u32| k2 != key && self.in_flight(k2) ==> self.step_get(
                key,
                now,
            ).followers_of(k2) == self.followers_of(k2),
    {
        let s1 = self.step_get(key, now);
        if self.store.is_fresh(key, now) {
        } else if self.in_flight(key) {
            let i = self.flight_slot(key);
            assert(0 <= i < self.flights.len() && self.flights[i].key == key);
            assert forall|a: int, b: int|
                0 <= a < b < s1.flights.len() implies s1.flights[a].key != s1.flights[b].key by {
                assert(self.flights[a].key != self.flights[b].key);
            };
            assert(s1.flights[i].key == key);
            s1.lemma_flight_slot_unique(key, i);
            assert forall|k2: u32| k2 != key implies s1.in_flight(k2) == self.in_flight(k2) by {
                if self.in_flight(k2) {
                    let j = self.flight_slot(k2);
                    assert(j != i);
                    assert(s1.flights[j].key == k2);
                }
                if s1.in_flight(k2) {
                    let j = s1.flight_slot(k2);
                    assert(0 <= j < s1.flights.len() && s1.flights[j].key == k2);
                    assert(j != i);
                    assert(self.flights[j].key == k2);
                    self.lemma_flight_slot_unique(k2, j);
                }
            };
            assert forall|k2: u32|
                k2 != key && self.in_flight(k2) implies s1.followers_of(k2)
                == self.followers_of(k2) by {
                let j = self.flight_slot(k2);
                assert(0 <= j < self.flights.len() && self.flights[j].key == k2);
                assert(j != i);
                assert(s1.flights[j] == self.flights[j]);
                s1.lemma_flight_slot_unique(k2, j);
            };
        } else {
            let n = self.flights.len() as int;
            assert forall|t: int| 0 <= t < n implies self.flights[t].key != key by {
                if self.flights[t].key == key {
                    assert(self.in_flight(key));
                }
            };
            assert forall|a: int, b: int|
                0 <= a < b < s1.flights.len() implies s1.flights[a].key != s1.flights[b].key by {
                if b < n {
                    assert(self.flights[a].key != self.flights[b].key);
                } else {
                    assert(s1.flights[b].key == key);
                    assert(s1.flights[a] == self.flights[a]);
                }
            };
            assert(s1.flights[n].key == key);
            s1.lemma_flight_slot_unique(key, n);
            assert forall|k2: u32| k2 != key implies s1.in_flight(k2) == self.in_flight(k2) by {
                if self.in_flight(k2) {
                    let j = self.flight_slot(k2);
                    assert(s1.flights[j].key == k2);
                }
                if s1.in_flight(k2) {
                    let j = s1.flight_slot(k2);
                    assert(0 <= j < s1.flights.len() && s1.flights[j].key == k2);
                    assert(j != n);
                    assert(self.flights[j].key == k2);
                }
            };
            assert forall|k2: u32|
                k2 != key && self.in_flight(k2) implies s1.followers_of(k2)
                == self.followers_of(k2) by {
                let j = self.flight_slot(k2);
                assert(0 <= j < self.flights.len() && self.flights[j].key == k2);
                assert(s1.flights[j] == self.flights[j]);
                s1.lemma_flight_slot_unique(k2, j);
            };
        }
    }

    /// Retiring the flight for `key` — however its fetch ended — preserves
    /// well-formedness, removes exactly that key's record, and leaves every
    /// other key's flight as it was. The store is untouched.
    pub proof fn lemma_step_failure_wf(self, key: u32)
        requires
            self.wf(),
            self.in_flight(key),
        ensures
            self.step_failure(key).wf(),
            self.step_failure(key).store == self.store,
            !self.step_failure(key).in_flight(key),
            forall|k2: u32| k2 != key ==> self.step_failure(key).in_flight(k2)
                == self.in_flight(k2),
            forall|k2: u32| k2 != key && self.in_flight(k2) ==> self.step_failure(
                key,
            ).followers_of(k2) == self.followers_of(k2),
    {
        let i = self.flight_slot(key);
        assert(0 <= i < self.flights.len() && self.flights[i].key == key);
        let s1 = self.step_failure(key);
        self.flights.remove_ensures(i);
        assert forall|a: int, b: int|
            0 <= a < b < s1.flights.len() implies s1.flights[a].key != s1.flights[b].key by {
            let a0: int = if a < i { a } else { a + 1 };
            let b0: int = if b < i { b } else { b + 1 };
            assert(s1.flights[a] == self.flights[a0]);
            assert(s1.flights[b] == self.flights[b0]);
        };
        assert forall|t: int| 0 <= t < s1.flights.len() implies s1.flights[t].key != key by {
            let t0: int = if t < i { t } else { t + 1 };
            assert(s1.flights[t] == self.flights[t0]);
            if self.flights[t0].key == key {
                self.lemma_flight_slot_unique(key, t0);
            }
        };
        assert(!s1.in_flight(key)) by {
            if s1.in_flight(key) {
                let t = s1.flight_slot(key);
                assert(0 <= t < s1.flights.len() && s1.flights[t].key == key);
            }
        };
        assert forall|k2: u32| k2 != key implies s1.in_flight(k2) == self.in_flight(k2) by {
            if self.in_flight(k2) {
                let j = self.flight_slot(k2);
                assert(0 <= j < self.flights.len() && self.flights[j].key == k2);
                assert(j != i);
                if j < i {
                    assert(s1.flights[j].key == k2);
                } else {
                    assert(s1.flights[j - 1].key == k2);
                }
            }
            if s1.in_flight(k2) {
                let t = s1.flight_slot(k2);
                assert(0 <= t < s1.flights.len() && s1.flights[t].key == k2);
                let t0: int = if t < i { t } else { t + 1 };
                assert(self.flights[t0].key == k2);
            }
        };
        assert forall|k2: u32|
            k2 != key && self.in_flight(k2) implies s1.followers_of(k2)
            == self.followers_of(k2) by {
            let j = self.flight_slot(k2);
            assert(0 <= j < self.flights.len() && self.flights[j].key == k2);
            assert(j != i);
            let j1: int = if j < i { j } else { j - 1 };
            assert(s1.flights[j1] == self.flights[j]);
            s1.lemma_flight_slot_unique(k2, j1);
        };
    }

    /// The success step is the failure step's flight retirement combined
    /// with the store write; it inherits both sides' guarantees.
    pub proof fn lemma_step_success_wf(self, key: u32, value: V, now: u64)
        requires
            self.wf(),
            self.in_flight(key),
            now + self.store.ttl <= u64::MAX,
        ensures
            self.step_success(key, value, now).wf(),
            self.step_success(key, value, now).store == self.store.put(key, value, now),
            !self.step_success(key, value, now).in_flight(key),
            forall|k2: u32| k2 != key ==> self.step_success(key, value, now).in_flight(k2)
                == self.in_flight(k2),
            forall|k2: u32| k2 != key && self.in_flight(k2) ==> self.step_success(
                key,
                value,
                now,
            ).followers_of(k2) == self.followers_of(k2),
    {
        self.lemma_step_failure_wf(key);
        self.store.lemma_put_wf(key, value, now);
        assert(self.step_success(key, value, now).flights == self.step_failure(key).flights);
    }

    /// While a fetch for `key` is in flight, no number of further `get`
    /// calls for `key` ever starts a second one, and the flight is still
    /// registered after all of them.
    pub proof fn lemma_no_second_leader(self, key: u32, ts: Seq<u64>)
        requires
            self.wf(),
            self.in_flight(key),
        ensures
            self.lead_count(key, ts) == 0,
            self.run_gets(key, ts).in_flight(key),
            self.run_gets(key, ts).wf(),
        decreases ts.len(),
    {
        if ts.len() > 0 {
            self.lemma_step_get_wf(key, ts[0]);
            self.step_get(key, ts[0]).lemma_no_second_leader(key, ts.drop_first());
        }
    }

    /// Single flight: when `get` calls for `key` arrive in any number while
    /// no fresh entry for `key` exists and no fetch for it is in flight,
    /// exactly one of them — the first — is told to fetch; every later one
    /// joins that flight, which is still registered after the whole batch.
    pub proof fn lemma_single_flight(self, key: u32, ts: Seq<u64>)
        requires
            self.wf(),
            ts.len() >= 1,
            !self.store.is_fresh(key, ts[0]),
            !self.in_flight(key),
        ensures
            self.decision_of(key, ts[0]) is Lead,
            self.lead_count(key, ts) == 1,
            self.run_gets(key, ts).in_flight(key),
    {
        self.lemma_step_get_wf(key, ts[0]);
        self.step_get(key, ts[0]).lemma_no_second_leader(key, ts.drop_first());
    }

    /// While a fetch for `key` is in flight and the cache stays stale for
    /// it, every `get` of an ordered batch joins that flight: the follower
    /// count grows by exactly one per call.
    pub proof fn lemma_followers_accumulate(self, key: u32, ts: Seq<u64>)
        requires
            self.wf(),
            self.in_flight(key),
            forall|a: int, b: int| 0 <= a < b < ts.len() ==> ts[a] <= ts[b],
            ts.len() > 0 ==> !self.store.is_fresh(key, ts[0]),
            self.followers_of(key) + ts.len() <= u64::MAX,
        ensures
            self.run_gets(key, ts).followers_of(key) == self.followers_of(key) + ts.len(),
        decreases ts.len(),
    {
        if ts.len() > 0 {
            self.lemma_step_get_wf(key, ts[0]);
            let s1 = self.step_get(key, ts[0]);
            let rest = ts.drop_first();
            assert(self.decision_of(key, ts[0]) is Follow);
            assert forall|a: int, b: int| 0 <= a < b < rest.len() implies rest[a] <= rest[b] by {
                assert(rest[a] == ts[a + 1]);
                assert(rest[b] == ts[b + 1]);
            };
            if rest.len() > 0 {
                assert(rest[0] == ts[1]);
                self.store.lemma_stale_monotone(key, ts[0], ts[1]);
            }
            s1.lemma_followers_accumulate(key, rest);
        }
    }

    /// Every call of a miss batch is attached to the one flight: the first
    /// call leads, each later call joins as a follower, so the flight ends
    /// the batch with one follower per call besides the leader.
    pub proof fn lemma_batch_joins_single_flight(self, key: u32, ts: Seq<u64>)
        requires
            self.wf(),
            1 <= ts.len() <= u64::MAX,
            forall|a: int, b: int| 0 <= a < b < ts.len() ==> ts[a] <= ts[b],
            !self.store.is_fresh(key, ts[0]),
            !self.in_flight(key),
        ensures
            self.run_gets(key, ts).followers_of(key) == ts.len() - 1,
    {
        self.lemma_step_get_wf(key, ts[0]);
        let s1 = self.step_get(key, ts[0]);
        let rest = ts.drop_first();
        assert forall|a: int, b: int| 0 <= a < b < rest.len() implies rest[a] <= rest[b] by {
            assert(rest[a] == ts[a + 1]);
            assert(rest[b] == ts[b + 1]);
        };
        if rest.len() > 0 {
            assert(rest[0] == ts[1]);
            self.store.lemma_stale_monotone(key, ts[0], ts[1]);
        }
        s1.lemma_followers_accumulate(key, rest);
    }

    /// No cross-key interference: a `get` for one key leaves the cache and
    /// every other key's flight — its existence and its follower count —
    /// exactly as they were.
    pub proof fn lemma_no_cross_key_interference(self, k1: u32, k2: u32, now: u64)
        requires
            self.wf(),
            k1 != k2,
        ensures
            self.step_get(k1, now).store == self.store,
            self.step_get(k1, now).in_flight(k2) == self.in_flight(k2),
            self.in_flight(k2) ==> self.step_get(k1, now).followers_of(k2)
                == self.followers_of(k2),
    {
        self.lemma_step_get_wf(k1, now);
    }

    /// Failure is not persisted: when the fetch for `key` fails, the store
    /// is left untouched, so the next `get` for `key` — the entry still
    /// being absent or lapsed — is told to start a new fetch rather than
    /// being served a remembered failure.
    pub proof fn lemma_failure_non_persistence(self, key: u32, t_fail: u64, t_next: u64)
        requires
            self.wf(),
            self.in_flight(key),
            !self.store.is_fresh(key, t_fail),
            t_fail <= t_next,
        ensures
            self.step_failure(key).store == self.store,
            !self.step_failure(key).in_flight(key),
            self.step_failure(key).decision_of(key, t_next) is Lead,
    {
        self.lemma_step_failure_wf(key);
        self.store.lemma_stale_monotone(key, t_fail, t_next);
    }
}

/// Serves `get` for a read-through cache with the single-flight policy.
///
/// The coordinator holds the cache and the in-flight table together, so one
/// owner (a lock or a sequential task) makes the probe-and-register step
/// atomic. Methods take the current time as an argument; the coordinator
/// never reads a clock and never performs the fetch itself — the caller
/// runs the fetch the `Lead` decision asks for and reports its outcome
/// through [`Coordinator::on_fetch_success`] or
/// [`Coordinator::on_fetch_failure`].
pub struct Coordinator<V> {
    cache: CacheStore<V>,
    flights: Vec<Flight>,
}

impl<V> Coordinator<V> {
    /// The abstract state this coordinator realises.
    pub closed spec fn model(self) -> CoordModel<V> {
        CoordModel { store: self.cache.model(), flights: self.flights@ }
    }

    pub open spec fn wf(self) -> bool {
        self.model().wf()
    }

    /// A coordinator over an empty cache that holds at most `capacity`
    /// entries, each lapsing `ttl` time units after it is written, with no
    /// fetch in flight.
    pub fn new(capacity: usize, ttl: u64) -> (c: Self)
        requires
            1 <= capacity,
            1 <= ttl,
        ensures
            c.wf(),
            c.model().store.entries == Seq::<Entry<V>>::empty(),
            c.model().store.capacity == capacity as nat,
            c.model().store.ttl == ttl,
            c.model().flights == Seq::<Flight>::empty(),
    {
        Coordinator { cache: CacheStore::new(capacity, ttl), flights: Vec::new() }
    }

    pub fn capacity(&self) -> (c: usize)
        ensures
            c as nat == self.model().store.capacity,
    {
        self.cache.capacity()
    }

    pub fn ttl(&self) -> (t: u64)
        ensures
            t == self.model().store.ttl,
    {
        self.cache.ttl()
    }

    /// Whether a fetch for `key` is currently registered.
    pub fn is_in_flight(&self, key: u32) -> (b: bool)
        requires
            self.wf(),
        ensures
            b == self.model().in_flight(key),
    {
        self.find_flight(key).is_some()
    }

    /// Pure probe of the cache; recency and flights are untouched.
    pub fn peek(&self, key: u32, now: u64) -> (r: Option<&V>)
        requires
            self.wf(),
        ensures
            match r {
                Some(v) => self.model().store.lookup(key, now) == Some(*v),
                None => self.model().store.lookup(key, now) is None,
            },
    {
        self.cache.peek(key, now)
    }

    /// The record index currently registered for `key`, if any.
    fn find_flight(&self, key: u32) -> (r: Option<usize>)
        requires
            self.wf(),
        ensures
            match r {
                Some(i) => self.model().in_flight(key) && self.model().flight_slot(key) == i,
                None => !self.model().in_flight(key),
            },
    {
        let n = self.flights.len();
        let mut idx: usize = 0;
        while idx < n
            invariant
                self.wf(),
                n == self.model().flights.len(),
                idx <= n,
                forall|t: int| 0 <= t < idx ==> self.model().flights[t].key != key,
            decreases n - idx,
        {
            if self.flights[idx].key == key {
                proof {
                    self.model().lemma_flight_slot_unique(key, idx as int);
                }
                return Some(idx);
            }
            idx += 1;
        }
        proof {
            if self.model().in_flight(key) {
                let j = self.model().flight_slot(key);
                assert(0 <= j < self.model().flights.len()
                    && self.model().flights[j].key == key);
            }
        }
        None
    }

    /// One `get` call's probe-and-register step, atomic over the cache and
    /// the in-flight table: a fresh entry yields `Hit` and changes nothing;
    /// otherwise the caller joins the flight already registered for `key`
    /// (`Follow`) or registers a new one and must run the fetch (`Lead`).
    pub fn on_get(&mut self, key: u32, now: u64) -> (d: GetDecision)
        requires
            old(self).wf(),
        ensures
            d == old(self).model().decision_of(key, now),
            final(self).model() == old(self).model().step_get(key, now),
            final(self).wf(),
    {
        proof {
            old(self).model().lemma_step_get_wf(key, now);
        }
        let hit = self.cache.peek(key, now).is_some();
        if hit {
            return GetDecision::Hit;
        }
        match self.find_flight(key) {
            Some(i) => {
                let f = self.flights[i].followers;
                let bumped: u64 = if f < u64::MAX {
                    f + 1
                } else {
                    f
                };
                self.flights.remove(i);
                self.flights.insert(i, Flight { key, followers: bumped });
                proof {
                    assert(self.model().flights =~= old(self).model().flights.update(
                        i as int,
                        Flight { key, followers: bumped },
                    ));
                    assert(self.model() =~= old(self).model().step_get(key, now));
                }
                GetDecision::Follow
            },
            None => {
                self.flights.push(Flight { key, followers: 0 });
                proof {
                    assert(self.model() =~= old(self).model().step_get(key, now));
                }
                GetDecision::Lead
            },
        }
    }

    /// The leader reports that the fetch for `key` returned `value` at time
    /// `now`: the value enters the cache (so it reads back fresh at `now`)
    /// and the flight is retired. Returns how many followers awaited it, so
    /// the caller can hand each of them this same value.
    pub fn on_fetch_success(&mut self, key: u32, value: V, now: u64) -> (w: u64)
        requires
            old(self).wf(),
            old(self).model().in_flight(key),
            now + old(self).model().store.ttl <= u64::MAX,
        ensures
            w == old(self).model().followers_of(key),
            final(self).model() == old(self).model().step_success(key, value, now),
            final(self).model().store.lookup(key, now) == Some(value),
            !final(self).model().in_flight(key),
            final(self).wf(),
    {
        proof {
            old(self).model().lemma_step_success_wf(key, value, now);
            old(self).model().store.lemma_freshness(key, value, now, now);
        }
        match self.find_flight(key) {
            Some(i) => {
                let w = self.flights[i].followers;
                self.flights.remove(i);
                self.cache.put(key, value, now);
                proof {
                    assert(self.model() =~= old(self).model().step_success(key, value, now));
                }
                w
            },
            None => vstd::pervasive::unreached(),
        }
    }

    /// The leader reports that the fetch for `key` failed: the cache is
    /// untouched — the failure is not stored, so the next `get` for `key`
    /// may try again — and the flight is retired. Returns how many
    /// followers awaited it, so the caller can hand each of them this same
    /// failure.
    pub fn on_fetch_failure(&mut self, key: u32) -> (w: u64)
        requires
            old(self).wf(),
            old(self).model().in_flight(key),
        ensures
            w == old(self).model().followers_of(key),
            final(self).model() == old(self).model().step_failure(key),
            !final(self).model().in_flight(key),
            final(self).wf(),
    {
        proof {
            old(self).model().lemma_step_failure_wf(key);
        }
        match self.find_flight(key) {
            Some(i) => {
                let w = self.flights[i].followers;
                self.flights.remove(i);
                proof {
                    assert(self.model() =~= old(self).model().step_failure(key));
                }
                w
            },
            None => vstd::pervasive::unreached(),
        }
    }
}

} // verus!
