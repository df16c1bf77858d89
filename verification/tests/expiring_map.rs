use storyteller::collections::ExpiringHashMap;

#[test]
fn insert_then_immediate_get_returns_value() {
    let mut store: ExpiringHashMap<&str> = ExpiringHashMap::new(1000);
    assert_eq!(store.insert_at(1, "alpha", 0), None);
    assert_eq!(store.get_at(1, 0), Some(&"alpha"));
}

#[test]
fn untouched_key_expires_on_get() {
    let mut store: ExpiringHashMap<u64> = ExpiringHashMap::new(10);
    store.insert_at(1, 11, 0);
    assert_eq!(store.get_at(1, 11), None);
}

#[test]
fn untouched_key_expires_on_insert_triggered_cleanup() {
    let mut store: ExpiringHashMap<u64> = ExpiringHashMap::new(10);
    store.insert_at(1, 11, 0);
    // The insert of a different key runs the cleanup pass that evicts key 1,
    // so even a direct remove (which never consults the clock) finds nothing.
    store.insert_at(2, 22, 11);
    assert_eq!(store.remove(1), None);
    assert_eq!(store.remove(2), Some(22));
}

#[test]
fn repeated_access_resets_the_clock() {
    let mut store: ExpiringHashMap<&str> = ExpiringHashMap::new(10);
    store.insert_at(1, "a", 0);
    assert_eq!(store.get_at(1, 9), Some(&"a"));
    // 15 - 9 = 6 < 10: still present, though 15 - 0 = 15 > 10 would have
    // expired it without the refresh at t = 9.
    assert_eq!(store.get_at(1, 15), Some(&"a"));
}

#[test]
fn unrefreshed_twin_expires_meanwhile() {
    let mut store: ExpiringHashMap<&str> = ExpiringHashMap::new(10);
    store.insert_at(1, "a", 0);
    store.insert_at(2, "b", 0);
    assert_eq!(store.get_at(1, 9), Some(&"a"));
    assert_eq!(store.get_at(1, 15), Some(&"a"));
    assert_eq!(store.get_at(2, 15), None);
}

#[test]
fn overwrite_returns_prior_value_and_refreshes() {
    let mut store: ExpiringHashMap<u64> = ExpiringHashMap::new(10);
    assert_eq!(store.insert_at(1, 100, 0), None);
    assert_eq!(store.insert_at(1, 200, 5), Some(100));
    // The overwrite at t = 5 refreshed the stamp: at t = 14 the age is 9.
    assert_eq!(store.get_at(1, 14), Some(&200));
}

#[test]
fn remove_present_then_get_is_empty() {
    let mut store: ExpiringHashMap<String> = ExpiringHashMap::new(1000);
    store.insert_at(1, String::from("payload"), 0);
    assert_eq!(store.remove(1), Some(String::from("payload")));
    assert_eq!(store.get_at(1, 0), None);
}

#[test]
fn remove_absent_returns_empty_and_changes_nothing() {
    let mut store: ExpiringHashMap<u64> = ExpiringHashMap::new(1000);
    store.insert_at(1, 7, 0);
    assert_eq!(store.remove(2), None);
    assert_eq!(store.get_at(1, 1), Some(&7));
}

#[test]
fn remove_ignores_the_clock() {
    let mut store: ExpiringHashMap<u64> = ExpiringHashMap::new(10);
    store.insert_at(1, 7, 0);
    // No insert or get has run since the entry went stale, so no cleanup has
    // swept it out: remove still finds it.
    assert_eq!(store.remove(1), Some(7));
}

#[test]
fn hundred_millisecond_scenario() {
    let mut store: ExpiringHashMap<u64> = ExpiringHashMap::new(100);
    store.insert_at(1, 1, 0); // insert "a" at t = 0
    store.insert_at(2, 2, 50); // insert "b" at t = 50
    assert_eq!(store.get_at(1, 120), None); // a's age 120 > 100
    assert_eq!(store.get_at(2, 120), Some(&2)); // b's age 70 < 100
}

#[test]
fn age_equal_to_duration_expires() {
    let mut store: ExpiringHashMap<u64> = ExpiringHashMap::new(10);
    store.insert_at(1, 7, 0);
    assert_eq!(store.get_at(1, 9), Some(&7));
    let mut store2: ExpiringHashMap<u64> = ExpiringHashMap::new(10);
    store2.insert_at(1, 7, 0);
    assert_eq!(store2.get_at(1, 10), None);
}

#[test]
fn zero_duration_keeps_nothing() {
    let mut store: ExpiringHashMap<u64> = ExpiringHashMap::new(0);
    store.insert_at(1, 7, 5);
    assert_eq!(store.get_at(1, 5), None);
}

#[test]
fn clock_reading_never_runs_backwards() {
    let mut store: ExpiringHashMap<u64> = ExpiringHashMap::new(10);
    store.insert_at(1, 7, 100);
    // An earlier reading is held at the latest time already seen (t = 100),
    // so the entry has not aged at all.
    assert_eq!(store.get_at(1, 50), Some(&7));
}

#[test]
fn many_keys_sweep_only_the_stale() {
    let mut store: ExpiringHashMap<u64> = ExpiringHashMap::new(100);
    for k in 0..20u64 {
        store.insert_at(k, k * 10, k * 5);
    }
    // At t = 150 the keys stamped at or before 50 (k <= 10) are dead.
    for k in 0..20u64 {
        let expect = if k * 5 + 100 > 150 { Some(k * 10) } else { None };
        assert_eq!(store.get_at(k, 150).copied(), expect);
    }
}

#[test]
fn stale_records_are_reconciled_not_trusted() {
    let mut store: ExpiringHashMap<&str> = ExpiringHashMap::new(10);
    store.insert_at(1, "a", 0);
    // The refresh at t = 5 leaves the queued record from t = 0 stale; the
    // cleanup at t = 12 must consult the table, requeue under the true stamp,
    // and keep the entry alive.
    assert_eq!(store.get_at(1, 5), Some(&"a"));
    assert_eq!(store.get_at(1, 12), Some(&"a"));
    assert_eq!(store.get_at(1, 23), None);
}

#[test]
fn orphaned_record_of_removed_key_is_discarded() {
    let mut store: ExpiringHashMap<&str> = ExpiringHashMap::new(10);
    store.insert_at(1, "a", 0);
    assert_eq!(store.remove(1), Some("a"));
    store.insert_at(2, "b", 5);
    // The cleanup at t = 12 surfaces the orphaned record for key 1, finds no
    // entry behind it, and silently drops it; key 2 is untouched.
    assert_eq!(store.get_at(1, 12), None);
    assert_eq!(store.get_at(2, 12), Some(&"b"));
}

#[test]
fn wall_clock_operations_round_trip() {
    let mut store: ExpiringHashMap<String> = ExpiringHashMap::new(600_000);
    assert_eq!(store.insert(1, String::from("session")), None);
    assert_eq!(store.get(1), Some(&String::from("session")));
    assert_eq!(store.insert(1, String::from("fresh")), Some(String::from("session")));
    assert_eq!(store.remove(1), Some(String::from("fresh")));
    assert_eq!(store.get(1), None);
}
