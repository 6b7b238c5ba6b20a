//! The directory over its whole life: registration, segment ownership,
//! heartbeats, versions and restarts. Time is given in milliseconds.

use rzid::codecs::Codecs;
use rzid::error::RzError;
use rzid::state::AppState;

/// A directory that holds nothing.
fn empty(timeout_secs: u64) -> AppState {
    AppState::new(None, timeout_secs, 100, Codecs::default(), 0)
}

fn text(s: &str) -> String {
    s.to_string()
}

#[test]
fn test_persist_and_reload_state() {
    let mut state = AppState::new(None, 60, 100, Codecs::default(), 0);

    state.register_router(text("router-1"), text("zone-eu"), 1);
    state.register_router(text("router-2"), text("zone-eu"), 2);
    state.register_bridge(text("bridge-1"), text("shard-a"), text("zone-eu"), 3);
    state.register_node(text("node-1"), text("shard-a"), text("zone-eu"), 4);
    state.register_node(text("node-2"), text("shard-a"), text("zone-eu"), 5);
    state.update_segments(
        text("shard-a"),
        text("zone-eu"),
        vec![text("segment-1"), text("segment-2")],
    );

    let snapshot = state.persist().unwrap();
    state.persisted(true);

    let reloaded = AppState::new(Some(Ok(snapshot)), 60, 100, Codecs::default(), 1_000);

    let (version, routers) = reloaded.zone_routers("zone-eu");
    assert_eq!(routers, vec!["router-1", "router-2"]);
    assert!(version > 0);

    let (version, shards) = reloaded.zone_shards("zone-eu");
    assert!(shards.contains_key("shard-a"));
    assert_eq!(shards.get("shard-a").unwrap(), &vec!["bridge-1"]);
    assert!(version > 0);

    let (version, nodes) = reloaded.shard_nodes("shard-a").unwrap();
    assert_eq!(nodes, vec!["node-1", "node-2"]);
    assert!(version > 0);

    let (version, zone, segments) = reloaded.shard_segments("shard-a").unwrap();
    assert_eq!(zone, "zone-eu");
    assert_eq!(segments, vec!["segment-1", "segment-2"]);
    assert!(version > 0);

    let (version, zone_segments) = reloaded.zone_segments("zone-eu");
    assert_eq!(zone_segments, vec!["segment-1", "segment-2"]);
    assert!(version > 0);
}

#[test]
fn test_heartbeat_timeout_and_sweep() {
    let mut state = empty(1);

    state.register_router(text("router-1"), text("zone-eu"), 0);
    state.register_bridge(text("bridge-1"), text("shard-a"), text("zone-eu"), 0);
    state.register_node(text("node-1"), text("shard-a"), text("zone-eu"), 0);

    let (_, routers) = state.zone_routers("zone-eu");
    assert!(!routers.is_empty());

    state.sweep_expired_components(2_000);

    let (_, routers) = state.zone_routers("zone-eu");
    assert!(routers.is_empty());

    let (_, shards) = state.zone_shards("zone-eu");
    assert!(shards.is_empty());

    let nodes_result = state.shard_nodes("shard-a");
    assert!(nodes_result.is_none());
}

#[test]
fn test_heartbeat_refresh_prevents_expiry() {
    let mut state = empty(2);

    state.register_router(text("router-1"), text("zone-eu"), 0);
    let mut now = 0;
    for _ in 0..3 {
        now += 500;
        state.register_router(text("router-1"), text("zone-eu"), now);
    }

    now += 500;
    state.sweep_expired_components(now);

    let (_, routers) = state.zone_routers("zone-eu");
    assert_eq!(routers, vec!["router-1"]);
}

#[test]
fn test_topology_change_updates_versions() {
    let mut state = empty(60);

    let manifest_before = state.version_manifest();

    state.register_router(text("router-1"), text("zone-eu"), 0);

    let manifest_after = state.version_manifest();
    assert!(manifest_after.global_version > manifest_before.global_version);

    let router_version_key = "zones/zone-eu/routers";
    let before_version = manifest_before
        .versions
        .get(router_version_key)
        .copied()
        .unwrap_or(0);
    let after_version = *manifest_after.versions.get(router_version_key).unwrap();
    assert!(after_version > before_version);

    state.register_router(text("router-1"), text("zone-us"), 0);

    let manifest_moved = state.version_manifest();
    assert!(manifest_moved.global_version > manifest_after.global_version);

    let eu_version = *manifest_moved.versions.get("zones/zone-eu/routers").unwrap();
    let us_version = *manifest_moved.versions.get("zones/zone-us/routers").unwrap();
    assert!(eu_version > after_version);
    assert!(us_version > 0);
}

#[test]
fn test_segment_update_deduplicates_and_sorts() {
    let mut state = empty(60);

    let changed = state.update_segments(
        text("shard-a"),
        text("zone-eu"),
        vec![
            text("segment-b"),
            text("segment-a"),
            text("segment-c"),
            text("segment-b"),
        ],
    );
    assert!(changed);

    let (_, _, segments) = state.shard_segments("shard-a").unwrap();
    assert_eq!(segments, vec!["segment-a", "segment-b", "segment-c"]);

    state.update_segments(
        text("shard-b"),
        text("zone-eu"),
        vec![text("segment-b"), text("segment-d")],
    );

    let (_, zone_segments) = state.zone_segments("zone-eu");
    assert_eq!(
        zone_segments,
        vec!["segment-a", "segment-b", "segment-c", "segment-d"]
    );
}

#[test]
fn test_identical_update_does_not_change_version() {
    let mut state = empty(60);

    state.update_segments(
        text("shard-a"),
        text("zone-eu"),
        vec![text("segment-1"), text("segment-2")],
    );

    let manifest1 = state.version_manifest();

    let changed = state.update_segments(
        text("shard-a"),
        text("zone-eu"),
        vec![text("segment-1"), text("segment-2")],
    );
    assert!(!changed);

    let manifest2 = state.version_manifest();
    assert_eq!(manifest2.global_version, manifest1.global_version);
    assert_eq!(manifest2.versions, manifest1.versions);
}

#[test]
fn test_reload_resets_heartbeat_timestamps() {
    let mut state = empty(1);

    state.register_router(text("router-1"), text("zone-eu"), 0);

    let snapshot = state.persist().unwrap();
    state.persisted(true);

    let mut reloaded = AppState::new(Some(Ok(snapshot)), 1, 100, Codecs::default(), 2_000);

    let (_, routers) = reloaded.zone_routers("zone-eu");
    assert_eq!(routers, vec!["router-1"]);

    reloaded.sweep_expired_components(2_000);
    let (_, routers) = reloaded.zone_routers("zone-eu");
    assert_eq!(routers, vec!["router-1"]);
}

#[test]
fn test_concurrent_registrations() {
    let mut state = empty(60);

    for i in 0..100 {
        state.register_router(format!("router-{}", i), format!("zone-{}", i % 5), 0);
    }

    for zone in 0..5 {
        let (_, routers) = state.zone_routers(&format!("zone-{}", zone));
        assert_eq!(routers.len(), 20);
    }
}

#[test]
fn test_register_idempotent() {
    let mut state = empty(60);

    state.register_router(text("r1"), text("zone1"), 0);
    let manifest1 = state.version_manifest();

    state.register_router(text("r1"), text("zone1"), 1);
    let manifest2 = state.version_manifest();

    assert_eq!(manifest2.global_version, manifest1.global_version);
}

#[test]
fn test_empty_segments_and_unknown_shard() {
    let mut state = empty(60);

    state.update_segments(text("shard-a"), text("zone-eu"), vec![]);

    let (_, _, segments) = state.shard_segments("shard-a").unwrap();
    assert!(segments.is_empty());

    assert!(state.shard_segments("unknown").is_none());
    assert!(state.shard_nodes("unknown").is_none());
}

#[test]
fn test_version_manifest_all_keys() {
    let mut state = empty(60);

    state.register_router(text("r1"), text("zone1"), 0);
    state.register_bridge(text("b1"), text("shard1"), text("zone1"), 0);
    state.register_node(text("n1"), text("shard1"), text("zone1"), 0);
    state.update_segments(text("shard1"), text("zone1"), vec![text("s1")]);

    let manifest = state.version_manifest();

    assert!(manifest.versions.contains_key("zones/zone1/routers"));
    assert!(manifest.versions.contains_key("zones/zone1/shards"));
    assert!(manifest.versions.contains_key("zones/zone1/segments"));
    assert!(manifest.versions.contains_key("shards/shard1/nodes"));
    assert!(manifest.versions.contains_key("shards/shard1/segments"));
}

/// A state file that cannot be read counts as none.
#[test]
fn test_recover_from_broken_json() {
    let broken = Some(Err(RzError::Json(text("expected value at line 1 column 2"))));
    let state = AppState::new(broken, 60, 100, Codecs::default(), 0);

    let (_, routers) = state.zone_routers("zone1");
    assert!(routers.is_empty());
}

#[test]
fn test_component_movement_updates_both_zones() {
    let mut state = empty(60);

    state.register_router(text("r1"), text("zone-eu"), 0);

    let (_, routers_eu) = state.zone_routers("zone-eu");
    assert_eq!(routers_eu, vec!["r1"]);
    let (_, routers_us) = state.zone_routers("zone-us");
    assert!(routers_us.is_empty());

    state.register_router(text("r1"), text("zone-us"), 0);

    let (_, routers_eu) = state.zone_routers("zone-eu");
    assert!(routers_eu.is_empty());
    let (_, routers_us) = state.zone_routers("zone-us");
    assert_eq!(routers_us, vec!["r1"]);
}

#[test]
fn test_zone_segments_deduplication() {
    let mut state = empty(60);

    state.update_segments(
        text("shard-a"),
        text("zone-eu"),
        vec![text("seg1"), text("seg2")],
    );
    state.update_segments(
        text("shard-b"),
        text("zone-eu"),
        vec![text("seg2"), text("seg3")],
    );

    let (_, segments) = state.zone_segments("zone-eu");
    assert_eq!(segments, vec!["seg1", "seg2", "seg3"]);
}

#[test]
fn test_sweep_keeps_fresh_components() {
    let mut state = empty(2);

    state.register_router(text("r1"), text("zone-eu"), 0);
    state.register_router(text("r2"), text("zone-eu"), 500);

    // More than two seconds since r1, a second and a half since r2.
    state.sweep_expired_components(2_001);

    let (_, routers) = state.zone_routers("zone-eu");
    assert_eq!(routers, vec!["r2"]);
}
