//! Laws of the expiring map, stated over its abstract model and proved once
//! and for all.
//!
//! The model is the entry table as a `Map` of [`Stamped`] values together
//! with the per-operation transition [`swept_step`], which is exactly what
//! the contracts of `insert_at`, `get_at` and `remove` say the container
//! computes.  The centrepiece relates that lazily sweeping semantics to a
//! reference semantics that never evicts anything: however the operations
//! interleave, the keys visible at any instant are exactly those whose true
//! last access lies within the configured duration.

use vstd::prelude::*;
use crate::collections::{expired, surviving, swept_step, Event, Stamped};

verus! {

/// The entry table a chronological operation sequence leaves behind under
/// the container's own semantics: every insert and get first sweeps out the
/// entries dead at its time.
pub open spec fn swept_run<V>(events: Seq<Event<V>>, ttl: u64) -> Map<u64, Stamped<V>>
    decreases events.len(),
{
    if events.len() == 0 {
        Map::<u64, Stamped<V>>::empty()
    } else {
        swept_step(swept_run(events.drop_last(), ttl), events.last(), ttl)
    }
}

/// What one operation does when nothing is ever evicted: entries linger
/// forever, and an operation merely refuses to report or refresh a key whose
/// true last access is out of date at its time.
pub open spec fn plain_step<V>(entries: Map<u64, Stamped<V>>, event: Event<V>, ttl: u64) -> Map<
    u64,
    Stamped<V>,
> {
    match event {
        Event::Insert { key, value, at } => entries.insert(key, Stamped { last_access: at, value }),
        Event::Get { key, at } => {
            if entries.dom().contains(key) && !expired(entries[key].last_access, at, ttl) {
                entries.insert(key, Stamped { last_access: at, value: entries[key].value })
            } else {
                entries
            }
        },
        Event::Remove { key } => entries.remove(key),
    }
}

/// The entry table the same operations produce under the never-evicting
/// reference semantics.
pub open spec fn plain_run<V>(events: Seq<Event<V>>, ttl: u64) -> Map<u64, Stamped<V>>
    decreases events.len(),
{
    if events.len() == 0 {
        Map::<u64, Stamped<V>>::empty()
    } else {
        plain_step(plain_run(events.drop_last(), ttl), events.last(), ttl)
    }
}

/// The time at which an operation samples the clock; `remove` never does.
pub open spec fn event_time<V>(event: Event<V>) -> Option<u64> {
    match event {
        Event::Insert { key: _, value: _, at } => Some(at),
        Event::Get { key: _, at } => Some(at),
        Event::Remove { key: _ } => None,
    }
}

/// The clock never runs backwards across the sequence, and never past
/// `bound`.
pub open spec fn chronological<V>(events: Seq<Event<V>>, bound: u64) -> bool {
    &&& forall|i: int|
        0 <= i < events.len() ==> match event_time(#[trigger] events[i]) {
            Some(t) => t <= bound,
            None => true,
        }
    &&& forall|i: int, j: int|
        #![trigger events[i], events[j]]
        0 <= i < j < events.len() ==> match (event_time(events[i]), event_time(events[j])) {
            (Some(earlier), Some(later)) => earlier <= later,
            _ => true,
        }
}

/// How the lazily swept table lags behind the never-evicting one at time
/// `t`: it is a restriction of it — agreeing entry for entry where defined —
/// and every key it is missing is out of date at `t`.
pub open spec fn sweep_lag<V>(
    swept: Map<u64, Stamped<V>>,
    plain: Map<u64, Stamped<V>>,
    t: u64,
    ttl: u64,
) -> bool {
    &&& forall|k: u64|
        #[trigger] swept.dom().contains(k) ==> plain.dom().contains(k) && plain[k] == swept[k]
    &&& forall|k: u64|
        #[trigger] plain.dom().contains(k) && !swept.dom().contains(k) ==> expired(
            plain[k].last_access,
            t,
            ttl,
        )
}

/// An entry out of date at one instant stays out of date at every later one.
proof fn lemma_expired_monotone(last_access: u64, t1: u64, t2: u64, ttl: u64)
    requires
        expired(last_access, t1, ttl),
        t1 <= t2,
    ensures
        expired(last_access, t2, ttl),
{
}

/// The lag relation only loosens as time moves on.
proof fn lemma_lag_monotone<V>(
    swept: Map<u64, Stamped<V>>,
    plain: Map<u64, Stamped<V>>,
    t1: u64,
    t2: u64,
    ttl: u64,
)
    requires
        sweep_lag(swept, plain, t1, ttl),
        t1 <= t2,
    ensures
        sweep_lag(swept, plain, t2, ttl),
{
    assert forall|k: u64|
        #[trigger] plain.dom().contains(k) && !swept.dom().contains(k) implies expired(
        plain[k].last_access,
        t2,
        ttl,
    ) by {
        lemma_expired_monotone(plain[k].last_access, t1, t2, ttl);
    }
}

/// One operation, run at its own time on both sides, preserves the lag
/// relation.
proof fn lemma_lag_step<V>(
    swept: Map<u64, Stamped<V>>,
    plain: Map<u64, Stamped<V>>,
    event: Event<V>,
    t: u64,
    ttl: u64,
)
    requires
        sweep_lag(swept, plain, t, ttl),
        match event_time(event) {
            Some(at) => at == t,
            None => true,
        },
    ensures
        sweep_lag(swept_step(swept, event, ttl), plain_step(plain, event, ttl), t, ttl),
{
    let s1 = swept_step(swept, event, ttl);
    let p1 = plain_step(plain, event, ttl);
    match event {
        Event::Insert { key, value: _, at } => {
            assert forall|k: u64| #[trigger] s1.dom().contains(k) implies p1.dom().contains(k)
                && p1[k] == s1[k] by {
                if k != key {
                    assert(surviving(swept, at, ttl).dom().contains(k));
                    assert(swept.dom().contains(k));
                }
            }
            assert forall|k: u64|
                #[trigger] p1.dom().contains(k) && !s1.dom().contains(k) implies expired(
                p1[k].last_access,
                t,
                ttl,
            ) by {
                assert(k != key);
                assert(plain.dom().contains(k));
                if swept.dom().contains(k) {
                    assert(!surviving(swept, at, ttl).dom().contains(k));
                    assert(expired(swept[k].last_access, at, ttl));
                }
            }
        },
        Event::Get { key, at } => {
            let fresh = surviving(swept, at, ttl);
            if fresh.dom().contains(key) {
                assert(swept.dom().contains(key));
                assert(plain.dom().contains(key) && plain[key] == swept[key]);
                assert(!expired(plain[key].last_access, at, ttl));
                assert forall|k: u64| #[trigger] s1.dom().contains(k) implies p1.dom().contains(k)
                    && p1[k] == s1[k] by {
                    if k != key {
                        assert(fresh.dom().contains(k));
                        assert(swept.dom().contains(k));
                    }
                }
                assert forall|k: u64|
                    #[trigger] p1.dom().contains(k) && !s1.dom().contains(k) implies expired(
                    p1[k].last_access,
                    t,
                    ttl,
                ) by {
                    assert(k != key);
                    assert(plain.dom().contains(k));
                    if swept.dom().contains(k) {
                        assert(!fresh.dom().contains(k));
                        assert(expired(swept[k].last_access, at, ttl));
                    }
                }
            } else {
                if plain.dom().contains(key) && !expired(plain[key].last_access, at, ttl) {
                    assert(swept.dom().contains(key));
                    assert(fresh.dom().contains(key));
                }
                assert(p1 == plain);
                assert forall|k: u64| #[trigger] s1.dom().contains(k) implies p1.dom().contains(k)
                    && p1[k] == s1[k] by {
                    assert(fresh.dom().contains(k));
                    assert(swept.dom().contains(k));
                }
                assert forall|k: u64|
                    #[trigger] p1.dom().contains(k) && !s1.dom().contains(k) implies expired(
                    p1[k].last_access,
                    t,
                    ttl,
                ) by {
                    if swept.dom().contains(k) {
                        assert(!fresh.dom().contains(k));
                        assert(expired(swept[k].last_access, at, ttl));
                    }
                }
            }
        },
        Event::Remove { key } => {
            assert forall|k: u64| #[trigger] s1.dom().contains(k) implies p1.dom().contains(k)
                && p1[k] == s1[k] by {
                assert(swept.dom().contains(k));
            }
            assert forall|k: u64|
                #[trigger] p1.dom().contains(k) && !s1.dom().contains(k) implies expired(
                p1[k].last_access,
                t,
                ttl,
            ) by {
                assert(plain.dom().contains(k));
                assert(!swept.dom().contains(k));
            }
        },
    }
}

/// Starting from nothing, a chronological run under the container's
/// sweeping semantics lags its never-evicting counterpart at the bound.
proof fn lemma_sweep_lag_run<V>(events: Seq<Event<V>>, ttl: u64, bound: u64)
    requires
        chronological(events, bound),
    ensures
        sweep_lag(swept_run(events, ttl), plain_run(events, ttl), bound, ttl),
    decreases events.len(),
{
    if events.len() > 0 {
        let prefix = events.drop_last();
        let last = events.last();
        assert(forall|i: int| 0 <= i < prefix.len() ==> prefix[i] == events[i]);
        match event_time(last) {
            Some(at) => {
                assert(chronological(prefix, at)) by {
                    assert(forall|i: int|
                        0 <= i < prefix.len() ==> match event_time(#[trigger] prefix[i]) {
                            Some(t) => t <= at,
                            None => true,
                        }) by {
                        assert(forall|i: int|
                            0 <= i < prefix.len() ==> prefix[i] == events[i] && events[events.len()
                                - 1] == last);
                    }
                }
                lemma_sweep_lag_run(prefix, ttl, at);
                lemma_lag_step(swept_run(prefix, ttl), plain_run(prefix, ttl), last, at, ttl);
                lemma_lag_monotone(swept_run(events, ttl), plain_run(events, ttl), at, bound, ttl);
            },
            None => {
                assert(chronological(prefix, bound));
                lemma_sweep_lag_run(prefix, ttl, bound);
                lemma_lag_step(swept_run(prefix, ttl), plain_run(prefix, ttl), last, bound, ttl);
            },
        }
    }
}

/// For any chronological interleaving of inserts, gets and removes, the keys
/// visible at `now` — with the stamp and value behind each — are exactly
/// those whose true last access, as the never-evicting reference semantics
/// records it, lies within the duration of `now`.  Whether the cleanup work
/// happened during inserts or during gets makes no difference.
pub proof fn lemma_visibility_matches_true_freshness<V>(events: Seq<Event<V>>, ttl: u64, now: u64)
    requires
        chronological(events, now),
    ensures
        surviving(swept_run(events, ttl), now, ttl) == surviving(plain_run(events, ttl), now, ttl),
{
    lemma_sweep_lag_run(events, ttl, now);
    let swept = swept_run(events, ttl);
    let plain = plain_run(events, ttl);
    assert(surviving(swept, now, ttl) =~= surviving(plain, now, ttl)) by {
        assert forall|k: u64|
            surviving(plain, now, ttl).dom().contains(k) implies surviving(
            swept,
            now,
            ttl,
        ).dom().contains(k) by {
            assert(plain.dom().contains(k) && !expired(plain[k].last_access, now, ttl));
            assert(swept.dom().contains(k));
        }
    }
}

/// Inserting a key and looking it up at the same instant finds the value
/// just inserted.  The duration must be at least a millisecond: with a zero
/// duration every entry is already out of date at its own stamp, and even an
/// immediate lookup comes back empty.
pub proof fn lemma_insert_then_get<V>(
    entries: Map<u64, Stamped<V>>,
    key: u64,
    value: V,
    now: u64,
    ttl: u64,
)
    requires
        ttl >= 1,
    ensures
        ({
            let after = swept_step(entries, (Event::Insert { key, value, at: now }), ttl);
            let visible = surviving(after, now, ttl);
            visible.dom().contains(key) && visible[key].value == value
        }),
{
}

/// A key untouched for longer than the duration is not visible.
pub proof fn lemma_stale_key_invisible<V>(
    entries: Map<u64, Stamped<V>>,
    key: u64,
    now: u64,
    ttl: u64,
)
    requires
        entries.dom().contains(key),
        entries[key].last_access <= now,
        now - entries[key].last_access > ttl,
    ensures
        !surviving(entries, now, ttl).dom().contains(key),
{
}

/// Looking a live key up resets its clock: after a hit at `t1`, the key is
/// still visible at any `t2` within the duration of `t1`, whatever its
/// earlier stamp was — even one that would have expired it by `t2`.
pub proof fn lemma_refresh_resets_clock<V>(
    entries: Map<u64, Stamped<V>>,
    key: u64,
    t1: u64,
    t2: u64,
    ttl: u64,
)
    requires
        surviving(entries, t1, ttl).dom().contains(key),
        t1 <= t2,
        t2 - t1 < ttl,
    ensures
        ({
            let after = swept_step(entries, (Event::Get { key, at: t1 }), ttl);
            let visible = surviving(after, t2, ttl);
            &&& after[key].last_access == t1
            &&& visible.dom().contains(key)
            &&& visible[key].value == entries[key].value
        }),
{
}

/// Overwriting a key rebinds it to the new value under a fresh stamp, and
/// leaves every other entry exactly as the sweep leaves it.
pub proof fn lemma_overwrite_refreshes<V>(
    entries: Map<u64, Stamped<V>>,
    key: u64,
    value: V,
    now: u64,
    ttl: u64,
)
    ensures
        ({
            let after = swept_step(entries, (Event::Insert { key, value, at: now }), ttl);
            &&& after.dom().contains(key)
            &&& after[key].last_access == now
            &&& after[key].value == value
            &&& forall|k: u64|
                k != key ==> (#[trigger] after.dom().contains(k) <==> surviving(
                    entries,
                    now,
                    ttl,
                ).dom().contains(k))
            &&& forall|k: u64|
                k != key && #[trigger] after.dom().contains(k) ==> after[k] == entries[k]
        }),
{
}

/// Eviction is physical, not just cosmetic: after an insert or a get at
/// time `t`, every entry still present in the table — not merely every
/// visible one — is alive at `t`.  A stale key is gone from memory by the
/// end of the next timed operation, even for a later `remove`, which
/// consults no clock.  (A positive duration is needed: with a zero duration
/// the entry an insert just wrote is already dead at its own stamp.)
pub proof fn lemma_timed_operations_leave_only_live_entries<V>(
    entries: Map<u64, Stamped<V>>,
    event: Event<V>,
    t: u64,
    ttl: u64,
)
    requires
        ttl >= 1,
        event_time(event) == Some(t),
    ensures
        forall|k: u64|
            #[trigger] swept_step(entries, event, ttl).dom().contains(k) ==> !expired(
                swept_step(entries, event, ttl)[k].last_access,
                t,
                ttl,
            ),
{
    let after = swept_step(entries, event, ttl);
    assert forall|k: u64| #[trigger] after.dom().contains(k) implies !expired(
        after[k].last_access,
        t,
        ttl,
    ) by {
        match event {
            Event::Insert { key, value: _, at } => {
                if k != key {
                    assert(surviving(entries, at, ttl).dom().contains(k));
                }
            },
            Event::Get { key, at } => {
                if k != key || !surviving(entries, at, ttl).dom().contains(key) {
                    assert(surviving(entries, at, ttl).dom().contains(k));
                }
            },
            Event::Remove { key: _ } => {},
        }
    }
}

/// A removed key is not visible afterwards, at any time.
pub proof fn lemma_removed_key_invisible<V>(
    entries: Map<u64, Stamped<V>>,
    key: u64,
    now: u64,
    ttl: u64,
)
    ensures
        !surviving(swept_step(entries, (Event::Remove { key }), ttl), now, ttl).dom().contains(key),
{
}

/// Removing an absent key changes nothing at all.
pub proof fn lemma_remove_absent_unchanged<V>(entries: Map<u64, Stamped<V>>, key: u64, ttl: u64)
    requires
        !entries.dom().contains(key),
    ensures
        swept_step(entries, (Event::Remove { key }), ttl) == entries,
{
    assert(entries.remove(key) =~= entries);
}

} // verus!
