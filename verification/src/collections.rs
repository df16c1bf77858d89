//! A key-value store that forgets entries which have not been read or written
//! within a configurable duration.
//!
//! Two structures cooperate.  The entry table (a hash map) is the single
//! source of truth: it maps each live key to its value and the time it was
//! last touched.  The freshness index (a min-ordered priority queue) holds
//! (timestamp, key) candidate-eviction records, possibly stale or duplicated.
//! Every insert and lookup first runs a lazy cleanup pass that drains the
//! records due at or before `now - ttl`, reconciles them against the entry
//! table, and evicts the entries that are genuinely out of date.  No
//! background thread is involved, and no operation can fail: a missing key is
//! an empty result, never an error.
//!
//! Times are plain milliseconds (`u64`).  The container never lets its notion
//! of "now" run backwards: each operation works at the later of the sampled
//! time and the latest time already recorded, mirroring a monotonic clock.

use vstd::prelude::*;
use vstd::multiset::Multiset;
use std::collections::HashMap;
use crate::freshness::{Access, FreshnessIndex};

verus! {

/// A stored value together with the time (milliseconds) it was last touched.
pub struct Stamped<V> {
    pub last_access: u64,
    pub value: V,
}

/// An entry last touched at `last_access` is out of date at `now`: it has
/// gone unaccessed for at least `ttl` milliseconds, i.e. it was last touched
/// at or before the eviction deadline `now - ttl`.  When `now < ttl` the
/// deadline lies before every representable instant and nothing is out of
/// date yet.
pub open spec fn expired(last_access: u64, now: u64, ttl: u64) -> bool {
    now >= ttl && last_access <= now - ttl
}

/// The entries of `entries` still alive at `now`: those whose last access is
/// within `ttl` of `now`, with their stamps and values untouched.
pub open spec fn surviving<V>(entries: Map<u64, Stamped<V>>, now: u64, ttl: u64) -> Map<
    u64,
    Stamped<V>,
> {
    Map::<u64, Stamped<V>>::new(
        |k: u64| entries.dom().contains(k) && !expired(entries[k].last_access, now, ttl),
        |k: u64| entries[k],
    )
}

/// One caller-visible operation on the container, with the time at which it
/// runs where the operation samples the clock (`remove` does not).
pub enum Event<V> {
    Insert { key: u64, value: V, at: u64 },
    Get { key: u64, at: u64 },
    Remove { key: u64 },
}

/// What one operation does to the entry table: insert and get first sweep out
/// the entries dead at their time, then stamp the touched entry; remove drops
/// its key directly and sweeps nothing.
pub open spec fn swept_step<V>(entries: Map<u64, Stamped<V>>, event: Event<V>, ttl: u64) -> Map<
    u64,
    Stamped<V>,
> {
    match event {
        Event::Insert { key, value, at } => surviving(entries, at, ttl).insert(
            key,
            Stamped { last_access: at, value },
        ),
        Event::Get { key, at } => {
            let fresh = surviving(entries, at, ttl);
            if fresh.dom().contains(key) {
                fresh.insert(key, Stamped { last_access: at, value: fresh[key].value })
            } else {
                fresh
            }
        },
        Event::Remove { key } => entries.remove(key),
    }
}

/// The time an operation actually works at: the sampled reading, unless the
/// container has already seen a later time, in which case the clock is held
/// there rather than allowed to run backwards.
pub open spec fn step_time(sampled: u64, latest: u64) -> u64 {
    if sampled >= latest { sampled } else { latest }
}

/// Every live entry is announced by at least one queued record that is no
/// later than the entry's true last access.  This is what lets the cleanup
/// pass stop as soon as the earliest queued record is past the deadline.
spec fn covered<V>(entries: Map<u64, Stamped<V>>, log: Multiset<Access>) -> bool {
    forall|k: u64| #[trigger] entries.dom().contains(k) ==> exists|a: Access|
        #[trigger] log.count(a) > 0 && a.key == k && a.stamp <= entries[k].last_access
}

/// Every entry stamp is at or before `bound`.
spec fn stamps_bounded<V>(entries: Map<u64, Stamped<V>>, bound: u64) -> bool {
    forall|k: u64| #[trigger] entries.dom().contains(k) ==> entries[k].last_access <= bound
}

/// Every queued record is at or before `bound`.
spec fn log_bounded(log: Multiset<Access>, bound: u64) -> bool {
    forall|a: Access| #[trigger] log.count(a) > 0 ==> a.stamp <= bound
}

/// How many queued records are due at or before `deadline`.  Each iteration
/// of the cleanup loop retires one such record, which bounds the loop.
spec fn due_count(log: Multiset<Access>, deadline: u64) -> nat {
    log.filter(|a: Access| a.stamp <= deadline).len()
}

proof fn lemma_due_count_remove(log: Multiset<Access>, a: Access, deadline: u64)
    requires
        log.count(a) > 0,
        a.stamp <= deadline,
    ensures
        due_count(log.remove(a), deadline) == due_count(log, deadline) - 1,
{
    let f = |x: Access| x.stamp <= deadline;
    assert(log.remove(a).filter(f) =~= log.filter(f).remove(a));
    assert(Multiset::singleton(a).subset_of(log.filter(f)));
}

proof fn lemma_due_count_insert_late(log: Multiset<Access>, a: Access, deadline: u64)
    requires
        a.stamp > deadline,
    ensures
        due_count(log.insert(a), deadline) == due_count(log, deadline),
{
    let f = |x: Access| x.stamp <= deadline;
    assert(log.insert(a).filter(f) =~= log.filter(f));
}

/// The expiring map: entry table, freshness index, and the configured
/// duration, plus the latest time the container has worked at.
pub struct ExpiringHashMap<V> {
    map: HashMap<u64, Stamped<V>>,
    access_log: FreshnessIndex,
    duration_ms: u64,
    newest: u64,
}

impl<V> ExpiringHashMap<V> {
    /// The configured expiration duration, in milliseconds.
    pub closed spec fn ttl(&self) -> u64 {
        self.duration_ms
    }

    /// The latest point in time the container has worked at so far.
    pub closed spec fn latest(&self) -> u64 {
        self.newest
    }

    /// The entry table: every key physically present, with its true last
    /// access.  Entries past their deadline may linger here until the next
    /// insert or lookup sweeps them out.
    pub closed spec fn contents(&self) -> Map<u64, Stamped<V>> {
        self.map@
    }

    /// Internal well-formedness: the freshness index is a proper min-heap,
    /// every live entry is covered by a record no later than its last access,
    /// and no stamp anywhere lies in the future of `latest()`.
    pub closed spec fn wf(&self) -> bool {
        &&& self.access_log.wf()
        &&& covered(self.map@, self.access_log.ms())
        &&& stamps_bounded(self.map@, self.newest)
        &&& log_bounded(self.access_log.ms(), self.newest)
    }

    /// What `insert` does, at clock reading `now_ms`: dead entries are swept
    /// out, the key is bound to `value` stamped with the effective time, and
    /// the value the key held before the operation (if it was alive) is
    /// handed back.
    pub open spec fn insert_step(
        pre: Self,
        post: Self,
        key: u64,
        value: V,
        previous: Option<V>,
        now_ms: u64,
    ) -> bool {
        let now = step_time(now_ms, pre.latest());
        let fresh = surviving(pre.contents(), now, pre.ttl());
        &&& post.wf()
        &&& post.ttl() == pre.ttl()
        &&& post.latest() == now
        &&& post.contents() == swept_step(
            pre.contents(),
            (Event::Insert { key, value, at: now }),
            pre.ttl(),
        )
        &&& previous == (if fresh.dom().contains(key) {
            Some(fresh[key].value)
        } else {
            None::<V>
        })
    }

    /// What `get` does to the stored entries, at clock reading `now_ms`:
    /// dead entries are swept out and, on a hit, the entry's stamp is
    /// refreshed to the effective time.  Nothing is ever inserted.
    pub open spec fn get_step(pre: Self, post: Self, key: u64, now_ms: u64) -> bool {
        let now = step_time(now_ms, pre.latest());
        &&& post.wf()
        &&& post.ttl() == pre.ttl()
        &&& post.latest() == now
        &&& post.contents() == swept_step(
            pre.contents(),
            (Event::Get { key, at: now }),
            pre.ttl(),
        )
    }

    /// An empty container that will hold entries for `duration_ms`
    /// milliseconds past their last access.
    pub fn new(duration_ms: u64) -> (store: Self)
        ensures
            store.wf(),
            store.ttl() == duration_ms,
            store.latest() == 0,
            store.contents() == Map::<u64, Stamped<V>>::empty(),
    {
        ExpiringHashMap {
            map: HashMap::new(),
            access_log: FreshnessIndex::new(),
            duration_ms,
            newest: 0,
        }
    }

    /// The lazy cleanup pass.  Repeatedly retire the earliest queued record
    /// while it is due at or before `now - ttl`: a record whose key is gone
    /// is discarded; one whose entry was touched again later is replaced by a
    /// fresh record carrying the entry's current stamp; one whose entry is
    /// genuinely out of date evicts that entry.  Afterwards exactly the
    /// entries alive at `now` remain.
    fn cleanup(&mut self, now: u64)
        requires
            old(self).wf(),
            now >= old(self).newest,
        ensures
            final(self).wf(),
            final(self).duration_ms == old(self).duration_ms,
            final(self).newest == old(self).newest,
            final(self).map@ == surviving(old(self).map@, now, old(self).duration_ms),
    {
        let ghost initial = old(self).map@;
        let ghost ttl = old(self).duration_ms;
        if self.duration_ms > now {
            proof {
                assert(surviving(initial, now, ttl) =~= initial);
            }
            return ;
        }
        let deadline = now - self.duration_ms;
        loop
            invariant
                self.access_log.wf(),
                covered(self.map@, self.access_log.ms()),
                stamps_bounded(self.map@, old(self).newest),
                log_bounded(self.access_log.ms(), old(self).newest),
                self.duration_ms == ttl,
                self.newest == old(self).newest,
                now >= self.duration_ms,
                deadline == now - self.duration_ms,
                surviving(self.map@, now, ttl) == surviving(initial, now, ttl),
            ensures
                self.access_log.wf(),
                covered(self.map@, self.access_log.ms()),
                stamps_bounded(self.map@, old(self).newest),
                log_bounded(self.access_log.ms(), old(self).newest),
                self.duration_ms == ttl,
                self.newest == old(self).newest,
                surviving(self.map@, now, ttl) == surviving(initial, now, ttl),
                forall|a: Access| self.access_log.ms().count(a) > 0 ==> a.stamp > deadline,
            decreases due_count(self.access_log.ms(), deadline),
        {
            let head = self.access_log.peek();
            match head {
                None => {
                    proof {
                        assert forall|a: Access|
                            self.access_log.ms().count(a) > 0 implies a.stamp > deadline by {
                            assert(self.access_log.ms().count(a) <= self.access_log.ms().len());
                        }
                    }
                    break ;
                },
                Some(first) => {
                    if first.stamp > deadline {
                        proof {
                            assert forall|a: Access|
                                self.access_log.ms().count(a) > 0 implies a.stamp > deadline by {}
                        }
                        break ;
                    }
                    let ghost log_before = self.access_log.ms();
                    let record = self.access_log.pop();
                    proof {
                        assert(record.stamp <= first.stamp);
                        lemma_due_count_remove(log_before, record, deadline);
                    }
                    let ghost map_before = self.map@;
                    match self.map.remove(&record.key) {
                        None => {
                            proof {
                                assert(self.map@ =~= map_before);
                            }
                        },
                        Some(entry) => {
                            if entry.last_access > deadline {
                                // The record is stale: the entry was touched
                                // again after it was queued.  Re-announce the
                                // entry under its current stamp.
                                let entry_stamp = entry.last_access;
                                self.map.insert(record.key, entry);
                                proof {
                                    assert(self.map@ =~= map_before);
                                }
                                let ghost log_mid = self.access_log.ms();
                                self.access_log.push(
                                    Access { stamp: entry_stamp, key: record.key },
                                );
                                proof {
                                    lemma_due_count_insert_late(
                                        log_mid,
                                        Access { stamp: entry_stamp, key: record.key },
                                        deadline,
                                    );
                                    assert forall|k: u64|
                                        #[trigger] self.map@.dom().contains(k) implies exists|
                                        a: Access,
                                    |
                                        #[trigger] self.access_log.ms().count(a) > 0 && a.key == k
                                            && a.stamp <= self.map@[k].last_access by {
                                        if k == record.key {
                                            let w = Access {
                                                stamp: entry_stamp,
                                                key: record.key,
                                            };
                                            assert(self.access_log.ms().count(w) > 0);
                                        } else {
                                            let w = choose|a: Access|
                                                #[trigger] log_before.count(a) > 0 && a.key == k
                                                    && a.stamp <= map_before[k].last_access;
                                            assert(w != record);
                                            assert(self.access_log.ms().count(w) > 0);
                                        }
                                    }
                                }
                            } else {
                                // Genuinely out of date: a true eviction.
                                proof {
                                    assert(expired(entry.last_access, now, ttl));
                                    assert(surviving(self.map@, now, ttl) =~= surviving(
                                        map_before,
                                        now,
                                        ttl,
                                    ));
                                    assert forall|k: u64|
                                        #[trigger] self.map@.dom().contains(k) implies exists|
                                        a: Access,
                                    |
                                        #[trigger] self.access_log.ms().count(a) > 0 && a.key == k
                                            && a.stamp <= self.map@[k].last_access by {
                                        let w = choose|a: Access|
                                            #[trigger] log_before.count(a) > 0 && a.key == k
                                                && a.stamp <= map_before[k].last_access;
                                        assert(w != record);
                                        assert(self.access_log.ms().count(w) > 0);
                                    }
                                }
                            }
                        },
                    }
                    proof {
                        if !self.map@.dom().contains(record.key) {
                            assert forall|k: u64|
                                #[trigger] self.map@.dom().contains(k) implies exists|a: Access|
                                #[trigger] self.access_log.ms().count(a) > 0 && a.key == k
                                    && a.stamp <= self.map@[k].last_access by {
                                let w = choose|a: Access|
                                    #[trigger] log_before.count(a) > 0 && a.key == k && a.stamp
                                        <= map_before[k].last_access;
                                assert(w != record);
                                assert(self.access_log.ms().count(w) > 0);
                            }
                        }
                    }
                },
            }
        }
        proof {
            assert(self.map@ =~= surviving(initial, now, ttl)) by {
                assert forall|k: u64| #[trigger] self.map@.dom().contains(k) implies !expired(
                    self.map@[k].last_access,
                    now,
                    ttl,
                ) by {
                    let w = choose|a: Access|
                        #[trigger] self.access_log.ms().count(a) > 0 && a.key == k && a.stamp
                            <= self.map@[k].last_access;
                    assert(w.stamp > deadline);
                }
                assert(surviving(self.map@, now, ttl) =~= self.map@);
            }
        }
    }

    /// Run cleanup, then bind `key` to `value` stamped with the effective
    /// time, returning the value the key held before if it was still alive.
    /// A key bound for the first time is announced to the freshness index; an
    /// overwritten key keeps its older record, which simply goes stale.
    pub fn insert_at(&mut self, key: u64, value: V, now_ms: u64) -> (previous: Option<V>)
        requires
            old(self).wf(),
        ensures
            Self::insert_step(*old(self), *final(self), key, value, previous, now_ms),
    {
        let now = if now_ms >= self.newest { now_ms } else { self.newest };
        self.cleanup(now);
        self.newest = now;
        let ghost swept = self.map@;
        let former = self.map.insert(key, Stamped { last_access: now, value });
        proof {
            assert(self.map@ == swept.insert(key, Stamped { last_access: now, value }));
        }
        match former {
            Some(stored) => {
                proof {
                    assert forall|k: u64|
                        #[trigger] self.map@.dom().contains(k) implies exists|a: Access|
                        #[trigger] self.access_log.ms().count(a) > 0 && a.key == k && a.stamp
                            <= self.map@[k].last_access by {
                        if k == key {
                            let w = choose|a: Access|
                                #[trigger] self.access_log.ms().count(a) > 0 && a.key == key
                                    && a.stamp <= swept[key].last_access;
                            assert(self.access_log.ms().count(w) > 0);
                        } else {
                            let w = choose|a: Access|
                                #[trigger] self.access_log.ms().count(a) > 0 && a.key == k
                                    && a.stamp <= swept[k].last_access;
                            assert(self.access_log.ms().count(w) > 0);
                        }
                    }
                }
                Some(stored.value)
            },
            None => {
                let ghost log_mid = self.access_log.ms();
                self.access_log.push(Access { stamp: now, key });
                proof {
                    assert forall|k: u64|
                        #[trigger] self.map@.dom().contains(k) implies exists|a: Access|
                        #[trigger] self.access_log.ms().count(a) > 0 && a.key == k && a.stamp
                            <= self.map@[k].last_access by {
                        if k == key {
                            let w = Access { stamp: now, key };
                            assert(self.access_log.ms().count(w) > 0);
                        } else {
                            let w = choose|a: Access|
                                #[trigger] log_mid.count(a) > 0 && a.key == k && a.stamp
                                    <= swept[k].last_access;
                            assert(self.access_log.ms().count(w) > 0);
                        }
                    }
                }
                None
            },
        }
    }

    /// Run cleanup, then look `key` up: on a hit, refresh the entry's stamp
    /// to the effective time and hand back a reference to its value; on a
    /// miss, hand back nothing.  Never inserts.
    pub fn get_at(&mut self, key: u64, now_ms: u64) -> (found: Option<&V>)
        requires
            old(self).wf(),
        ensures
            Self::get_step(*old(self), *final(self), key, now_ms),
            ({
                let now = step_time(now_ms, old(self).latest());
                let fresh = surviving(old(self).contents(), now, old(self).ttl());
                match found {
                    Some(v) => fresh.dom().contains(key) && *v == fresh[key].value,
                    None => !fresh.dom().contains(key),
                }
            }),
    {
        let now = if now_ms >= self.newest { now_ms } else { self.newest };
        self.cleanup(now);
        self.newest = now;
        let ghost swept = self.map@;
        match self.map.remove(&key) {
            Some(stored) => {
                let ghost shrunk = self.map@;
                self.map.insert(key, Stamped { last_access: now, value: stored.value });
                proof {
                    assert(self.map@ == shrunk.insert(
                        key,
                        Stamped { last_access: now, value: stored.value },
                    ));
                    assert(self.map@ =~= swept.insert(
                        key,
                        Stamped { last_access: now, value: swept[key].value },
                    ));
                    assert forall|k: u64|
                        #[trigger] self.map@.dom().contains(k) implies exists|a: Access|
                        #[trigger] self.access_log.ms().count(a) > 0 && a.key == k && a.stamp
                            <= self.map@[k].last_access by {
                        let w = choose|a: Access|
                            #[trigger] self.access_log.ms().count(a) > 0 && a.key == k && a.stamp
                                <= swept[k].last_access;
                        assert(self.access_log.ms().count(w) > 0);
                    }
                }
                match self.map.get(&key) {
                    Some(stored_ref) => Some(&stored_ref.value),
                    None => None,
                }
            },
            None => {
                proof {
                    assert(self.map@ =~= swept);
                }
                None
            },
        }
    }

    /// Drop `key` outright, handing back its value if an entry was present —
    /// alive or not, since no cleanup runs here.  The freshness index is left
    /// alone on purpose: the key's now-orphaned record will be discarded by a
    /// later cleanup pass when it surfaces.  Removing an absent key changes
    /// nothing and is a normal miss, not an error.
    pub fn remove(&mut self, key: u64) -> (removed: Option<V>)
        requires
            old(self).wf(),
        ensures
            final(self).wf(),
            final(self).ttl() == old(self).ttl(),
            final(self).latest() == old(self).latest(),
            final(self).contents() == old(self).contents().remove(key),
            removed == (if old(self).contents().dom().contains(key) {
                Some(old(self).contents()[key].value)
            } else {
                None::<V>
            }),
    {
        let ghost before = self.map@;
        let outcome = match self.map.remove(&key) {
            Some(stored) => Some(stored.value),
            None => None,
        };
        proof {
            assert forall|k: u64| #[trigger] self.map@.dom().contains(k) implies exists|a: Access|
                #[trigger] self.access_log.ms().count(a) > 0 && a.key == k && a.stamp
                    <= self.map@[k].last_access by {
                let w = choose|a: Access|
                    #[trigger] self.access_log.ms().count(a) > 0 && a.key == k && a.stamp
                        <= before[k].last_access;
                assert(self.access_log.ms().count(w) > 0);
            }
        }
        outcome
    }

    /// Sample the clock and insert at that reading.
    pub fn insert(&mut self, key: u64, value: V) -> (previous: Option<V>)
        requires
            old(self).wf(),
        ensures
            exists|now_ms: u64|
                #[trigger] Self::insert_step(
                    *old(self),
                    *final(self),
                    key,
                    value,
                    previous,
                    now_ms,
                ),
            final(self).wf(),
    {
        let now_ms = now_millis();
        self.insert_at(key, value, now_ms)
    }

    /// Sample the clock and look up at that reading.
    pub fn get(&mut self, key: u64) -> (found: Option<&V>)
        requires
            old(self).wf(),
        ensures
            exists|now_ms: u64|
                {
                    &&& #[trigger] Self::get_step(*old(self), *final(self), key, now_ms)
                    &&& ({
                        let now = step_time(now_ms, old(self).latest());
                        let fresh = surviving(old(self).contents(), now, old(self).ttl());
                        match found {
                            Some(v) => fresh.dom().contains(key) && *v == fresh[key].value,
                            None => !fresh.dom().contains(key),
                        }
                    })
                },
            final(self).wf(),
    {
        let now_ms = now_millis();
        self.get_at(key, now_ms)
    }
}

/// Relies on `std::time::SystemTime::now` for the wall-clock reading, reduced
/// to whole milliseconds since the Unix epoch (zero if the clock is set
/// before the epoch).  Nothing can be promised of a clock reading.
#[verifier::external_body]
fn now_millis() -> (now_ms: u64) {
    match std::time::SystemTime::now().duration_since(std::time::UNIX_EPOCH) {
        Ok(elapsed) => elapsed.as_millis() as u64,
        Err(_) => 0,
    }
}

} // verus!
