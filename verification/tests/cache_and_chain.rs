use sis_crystal::cache::TelemetryCache;
use sis_crystal::chain::BackendChain;

#[derive(Clone, PartialEq, Debug)]
struct Snapshot {
    cpu: u64,
    memory: u64,
}

#[test]
fn empty_cache_needs_a_refresh() {
    let cache: TelemetryCache<Snapshot> = TelemetryCache::new(1000);
    assert!(cache.needs_refresh(0));
    assert_eq!(cache.read(0), None);
}

#[test]
fn stored_snapshot_is_fresh_within_ttl() {
    let mut cache: TelemetryCache<Snapshot> = TelemetryCache::new(1000);
    cache.store(Snapshot { cpu: 10, memory: 20 }, 500);
    assert!(!cache.needs_refresh(500));
    assert!(!cache.needs_refresh(1500));
    assert_eq!(cache.read(1500), Some(&Snapshot { cpu: 10, memory: 20 }));
}

#[test]
fn expired_snapshot_is_never_returned() {
    let mut cache: TelemetryCache<Snapshot> = TelemetryCache::new(1000);
    cache.store(Snapshot { cpu: 10, memory: 20 }, 500);
    assert!(cache.needs_refresh(1501));
    assert_eq!(cache.read(1501), None);
}

#[test]
fn refresh_replaces_the_slot_wholesale() {
    let mut cache: TelemetryCache<Snapshot> = TelemetryCache::new(1000);
    cache.store(Snapshot { cpu: 1, memory: 2 }, 100);
    assert_eq!(cache.read(100), Some(&Snapshot { cpu: 1, memory: 2 }));
    cache.store(Snapshot { cpu: 3, memory: 4 }, 200);
    // the new snapshot is seen whole: never one old and one new field
    assert_eq!(cache.read(200), Some(&Snapshot { cpu: 3, memory: 4 }));
}

#[test]
fn a_clock_before_the_store_counts_as_stale() {
    let mut cache: TelemetryCache<u64> = TelemetryCache::new(1000);
    cache.store(7, 500);
    assert_eq!(cache.read(499), None);
}

#[test]
fn first_backend_success_ends_the_run() {
    let mut chain = BackendChain::new(vec!["pactl".to_string(), "wpctl".to_string()]);
    assert_eq!(chain.current().map(|s| s.as_str()), Some("pactl"));
    chain.succeed("ok".to_string());
    // the second backend is never offered
    assert_eq!(chain.current(), None);
    assert_eq!(chain.result().map(|s| s.as_str()), Some("ok"));
    assert!(!chain.all_failed());
}

#[test]
fn failure_falls_through_to_the_second_backend() {
    let mut chain = BackendChain::new(vec!["pactl".to_string(), "wpctl".to_string()]);
    chain.fail("not installed".to_string());
    assert_eq!(chain.current().map(|s| s.as_str()), Some("wpctl"));
    chain.succeed("fallback-ok".to_string());
    assert_eq!(chain.result().map(|s| s.as_str()), Some("fallback-ok"));
}

#[test]
fn exhausted_chain_names_every_backend() {
    let mut chain = BackendChain::new(vec!["pactl".to_string(), "wpctl".to_string()]);
    chain.fail("no sink".to_string());
    chain.fail("no daemon".to_string());
    assert_eq!(chain.current(), None);
    assert!(chain.all_failed());
    assert_eq!(chain.composite_error(), "pactl: no sink; wpctl: no daemon");
}

#[test]
fn single_backend_chain_reports_its_only_failure() {
    let mut chain = BackendChain::new(vec!["gsettings".to_string()]);
    chain.fail("schema missing".to_string());
    assert!(chain.all_failed());
    assert_eq!(chain.composite_error(), "gsettings: schema missing");
}
