//! One example of each law of the directory.

use rzid::codecs::Codecs;
use rzid::keys::{
    shard_nodes_key, shard_segments_key, zone_routers_key, zone_segments_key, zone_shards_key,
};
use rzid::names::NameList;
use rzid::records::{
    Components, PersistedState, RouterInfo, SegmentSet, SegmentStore, ShardSegments,
};
use rzid::state::AppState;
use rzid::table::NameMap;

fn text(s: &str) -> String {
    s.to_string()
}

fn texts(items: &[&str]) -> Vec<String> {
    items.iter().map(|s| s.to_string()).collect()
}

fn empty(timeout_secs: u64) -> AppState {
    AppState::new(None, timeout_secs, 100, Codecs::default(), 0)
}

fn version(state: &AppState, key: &str) -> u64 {
    state.version_manifest().versions.get(key).copied().unwrap_or(0)
}

#[test]
fn keys_of_different_datasets_differ() {
    assert_eq!(zone_routers_key("a"), "zones/a/routers");
    assert_eq!(zone_shards_key("a"), "zones/a/shards");
    assert_eq!(zone_segments_key("a"), "zones/a/segments");
    assert_eq!(shard_segments_key("a"), "shards/a/segments");
    assert_eq!(shard_nodes_key("a"), "shards/a/nodes");
    assert_ne!(zone_segments_key("a/routers"), zone_routers_key("a"));
    assert_ne!(zone_segments_key(""), shard_segments_key(""));
}

#[test]
fn changed_answers_have_new_versions() {
    let mut state = empty(60);
    assert!(state.register_router(text("r1"), text("eu"), 0));
    assert_eq!(version(&state, "zones/eu/routers"), 1);
    assert!(state.register_router(text("r1"), text("us"), 0));
    assert_eq!(version(&state, "zones/eu/routers"), 2);
    assert_eq!(version(&state, "zones/us/routers"), 1);
    assert_eq!(state.version_manifest().global_version, 3);

    assert!(state.register_bridge(text("b1"), text("a"), text("eu"), 0));
    assert!(state.register_bridge(text("b1"), text("a"), text("us"), 0));
    assert_eq!(version(&state, "zones/eu/shards"), 2);
    assert_eq!(version(&state, "zones/us/shards"), 1);

    assert!(state.register_node(text("n1"), text("a"), text("eu"), 0));
    assert!(state.register_node(text("n1"), text("b"), text("eu"), 0));
    assert_eq!(version(&state, "shards/a/nodes"), 2);
    assert_eq!(version(&state, "shards/b/nodes"), 1);
    assert!(state.shard_nodes("a").is_none());
    assert_eq!(state.shard_nodes("b").unwrap(), (1, texts(&["n1"])));
}

#[test]
fn a_bridge_that_changes_its_shard_counts_its_zone_twice() {
    let mut state = empty(60);
    state.register_bridge(text("b1"), text("a"), text("eu"), 0);
    state.register_bridge(text("b1"), text("b"), text("eu"), 0);
    let (version, shards) = state.zone_shards("eu");
    assert_eq!(version, 3);
    assert_eq!(shards.keys(), vec!["b"]);
}

#[test]
fn a_node_that_changes_its_zone_counts_nothing() {
    let mut state = empty(60);
    state.register_node(text("n1"), text("a"), text("eu"), 0);
    assert!(!state.register_node(text("n1"), text("a"), text("us"), 0));
    assert_eq!(state.version_manifest().global_version, 1);
}

#[test]
fn zone_segments_count_only_what_readers_see() {
    let mut state = empty(60);
    state.update_segments(text("a"), text("eu"), texts(&["x", "y"]));
    assert_eq!(version(&state, "zones/eu/segments"), 1);
    // The zone has both already.
    state.update_segments(text("b"), text("eu"), texts(&["y"]));
    assert_eq!(version(&state, "zones/eu/segments"), 1);
    assert_eq!(version(&state, "shards/b/segments"), 1);
    // The other shard still owns it.
    state.update_segments(text("b"), text("eu"), texts(&[]));
    assert_eq!(version(&state, "zones/eu/segments"), 1);
    // A move takes both segments along.
    state.update_segments(text("a"), text("us"), texts(&["x", "y"]));
    assert_eq!(state.zone_segments("eu"), (2, texts(&[])));
    assert_eq!(state.zone_segments("us"), (1, texts(&["x", "y"])));
}

#[test]
fn an_unchanged_zone_is_not_counted() {
    let mut state = empty(60);
    state.update_segments(text("a"), text("z"), texts(&["x"]));
    state.update_segments(text("b"), text("z"), texts(&["y"]));
    assert_eq!(state.zone_segments("z"), (2, texts(&["x", "y"])));
    // Both are there already.
    assert!(state.update_segments(text("a"), text("z"), texts(&["x", "y"])));
    assert_eq!(state.zone_segments("z"), (2, texts(&["x", "y"])));
    assert_eq!(version(&state, "shards/a/segments"), 2);
    // The other shard owns what is given up.
    assert!(state.update_segments(text("a"), text("z"), texts(&["x"])));
    assert_eq!(state.zone_segments("z"), (2, texts(&["x", "y"])));
    // One goes, one comes.
    assert!(state.update_segments(text("a"), text("z"), texts(&["w"])));
    assert_eq!(state.zone_segments("z"), (3, texts(&["w", "y"])));
    // What moves away is gone, what stays behind is not.
    assert!(state.update_segments(text("a"), text("q"), texts(&["w", "y"])));
    assert_eq!(state.zone_segments("z"), (4, texts(&["y"])));
    assert_eq!(state.zone_segments("q"), (1, texts(&["w", "y"])));
    assert_eq!(state.version_manifest().global_version, 11);
}

#[test]
fn a_move_that_leaves_nothing_out_counts_only_the_new_zone() {
    let mut state = empty(60);
    state.update_segments(text("a"), text("z"), texts(&["x"]));
    state.update_segments(text("b"), text("z"), texts(&["x"]));
    state.update_segments(text("a"), text("q"), texts(&["x"]));
    assert_eq!(state.zone_segments("z"), (1, texts(&["x"])));
    assert_eq!(state.zone_segments("q"), (1, texts(&["x"])));
}

#[test]
fn the_overall_version_is_the_sum() {
    let tallied = |state: &AppState| {
        let manifest = state.version_manifest();
        let held: Vec<u64> = (0..manifest.versions.len())
            .map(|i| *manifest.versions.value_at(i))
            .collect();
        assert!(held.iter().all(|version| *version >= 1));
        assert_eq!(held.iter().sum::<u64>(), manifest.global_version);
    };
    let mut state = empty(1);
    tallied(&state);
    state.register_router(text("r1"), text("eu"), 0);
    state.register_router(text("r1"), text("us"), 0);
    state.register_bridge(text("b1"), text("a"), text("eu"), 0);
    state.register_bridge(text("b1"), text("b"), text("eu"), 0);
    state.register_node(text("n1"), text("a"), text("eu"), 0);
    state.update_segments(text("a"), text("eu"), texts(&["x", "y"]));
    state.update_segments(text("a"), text("us"), texts(&["y"]));
    tallied(&state);
    state.sweep_expired_components(2_000);
    tallied(&state);
    assert_eq!(state.version_manifest().global_version, 15);
    let again = AppState::new(state.persist().map(Ok), 1, 100, Codecs::default(), 9_000);
    tallied(&again);
    assert_eq!(again.zone_routers("us").0, version(&again, "zones/us/routers"));
    assert_eq!(again.zone_routers("nowhere").0, 0);
}

#[test]
fn repeated_registration_is_a_heartbeat() {
    let mut state = empty(1);
    state.register_bridge(text("b1"), text("a"), text("eu"), 0);
    let before = state.version_manifest();
    assert!(!state.register_bridge(text("b1"), text("a"), text("eu"), 900));
    assert_eq!(state.version_manifest(), before);
    let swept = state.sweep_expired_components(1_900);
    assert_eq!((swept.routers, swept.bridges, swept.nodes), (0, 0, 0));
    let swept = state.sweep_expired_components(1_901);
    assert_eq!((swept.routers, swept.bridges, swept.nodes), (0, 1, 0));
}

#[test]
fn registrations_commute() {
    let register = |state: &mut AppState, which: usize| match which {
        0 => state.register_router(text("r1"), text("us"), 3),
        1 => state.register_bridge(text("x"), text("a"), text("us"), 4),
        _ => state.register_node(text("x"), text("a"), text("us"), 5),
    };
    let after = |order: [usize; 3]| {
        let mut state = empty(60);
        state.register_router(text("r1"), text("eu"), 0);
        for which in order {
            register(&mut state, which);
        }
        state.persist().unwrap()
    };
    assert_eq!(after([0, 1, 2]), after([2, 1, 0]));
    assert_eq!(after([0, 1, 2]), after([1, 0, 2]));
}

#[test]
fn sweeps_count_components_and_leave_the_rest() {
    let mut state = empty(1);
    state.register_router(text("r1"), text("eu"), 0);
    state.register_router(text("r2"), text("eu"), 0);
    state.register_router(text("r3"), text("us"), 5_000);
    state.register_bridge(text("b1"), text("a"), text("eu"), 0);
    state.register_node(text("n1"), text("a"), text("eu"), 0);
    state.update_segments(text("a"), text("eu"), texts(&["x"]));
    let swept = state.sweep_expired_components(5_000);
    assert_eq!((swept.routers, swept.bridges, swept.nodes), (2, 1, 1));
    assert_eq!(state.zone_routers("eu"), (3, texts(&[])));
    assert_eq!(state.zone_routers("us"), (1, texts(&["r3"])));
    assert_eq!(state.zone_segments("eu").1, texts(&["x"]));
    let counts = state.component_counts();
    assert_eq!((counts.routers, counts.bridges, counts.nodes, counts.zones), (1, 0, 0, 1));
    let before = state.version_manifest();
    let swept = state.sweep_expired_components(5_000);
    assert_eq!((swept.routers, swept.bridges, swept.nodes), (0, 0, 0));
    assert_eq!(state.version_manifest(), before);
}

#[test]
fn a_clock_that_goes_back_removes_nothing() {
    let mut state = empty(0);
    state.register_router(text("r1"), text("eu"), 5_000);
    assert_eq!(state.sweep_expired_components(1_000).routers, 0);
    assert_eq!(state.sweep_expired_components(5_000).routers, 0);
    assert_eq!(state.sweep_expired_components(5_001).routers, 1);
}

#[test]
fn a_timeout_beyond_the_clock_never_ends() {
    for secs in [18_446_744_073_709_552, 1 << 61, u64::MAX] {
        let mut state = empty(secs);
        state.register_router(text("r1"), text("z"), 1_000);
        assert_eq!(state.sweep_expired_components(2_000).routers, 0);
        assert_eq!(state.sweep_expired_components(u64::MAX).routers, 0);
        assert_eq!(state.zone_routers("z"), (1, texts(&["r1"])));
    }
    // The longest timeout that 64 bits hold in milliseconds.
    let mut state = empty(18_446_744_073_709_551);
    state.register_router(text("r1"), text("z"), 0);
    assert_eq!(state.sweep_expired_components(18_446_744_073_709_551_000).routers, 0);
    assert_eq!(state.sweep_expired_components(18_446_744_073_709_551_001).routers, 1);
}

#[test]
fn published_segments_read_back() {
    let mut state = empty(60);
    state.update_segments(text("a"), text("eu"), texts(&["b", "a", "b", "B"]));
    let (version, zone, segments) = state.shard_segments("a").unwrap();
    assert_eq!((version, zone.as_str()), (1, "eu"));
    assert_eq!(segments, vec!["B", "a", "b"]);
    assert!(!state.update_segments(text("a"), text("eu"), texts(&["a", "B", "b"])));
}

#[test]
fn changes_wait_to_be_written() {
    let mut state = empty(60);
    assert!(!state.is_dirty());
    assert!(state.persist().is_none());
    state.register_router(text("r1"), text("eu"), 0);
    assert!(state.is_dirty());
    assert!(state.persist().is_some());
    assert!(state.is_dirty());
    state.persisted(true);
    assert!(!state.is_dirty());
    // A heartbeat is not written.
    state.register_router(text("r1"), text("eu"), 1);
    assert!(!state.is_dirty());
}

#[test]
fn a_failed_write_is_tried_again() {
    let mut state = empty(60);
    state.register_router(text("r1"), text("eu"), 0);
    let first = state.persist();
    state.persisted(false);
    assert!(state.is_dirty());
    assert_eq!(state.persist(), first);
}

#[test]
fn a_change_during_a_write_is_not_hidden() {
    let mut state = empty(60);
    state.register_router(text("r1"), text("eu"), 0);
    let first = state.persist().unwrap();
    state.register_router(text("r2"), text("eu"), 0);
    state.persisted(true);
    assert!(state.is_dirty());
    let second = state.persist().unwrap();
    assert_eq!(first.components.routers.len(), 1);
    assert_eq!(second.components.routers.len(), 2);
}

#[test]
fn a_restart_keeps_every_answer() {
    let mut state = empty(1);
    state.register_router(text("r1"), text("eu"), 0);
    state.register_bridge(text("b1"), text("a"), text("eu"), 0);
    state.register_node(text("n1"), text("a"), text("eu"), 0);
    state.update_segments(text("a"), text("eu"), texts(&["x", "y"]));
    state.update_segments(text("b"), text("eu"), texts(&["y", "z"]));
    let kept = state.persist().unwrap();
    let mut again = AppState::new(Some(Ok(kept)), 1, 100, Codecs::default(), 9_000);
    assert_eq!(again.version_manifest(), state.version_manifest());
    assert_eq!(again.zone_routers("eu"), state.zone_routers("eu"));
    assert_eq!(again.zone_shards("eu"), state.zone_shards("eu"));
    assert_eq!(again.zone_segments("eu"), state.zone_segments("eu"));
    assert_eq!(again.shard_segments("a"), state.shard_segments("a"));
    assert_eq!(again.shard_nodes("a"), state.shard_nodes("a"));
    assert!(!again.is_dirty());
    assert_eq!(again.sweep_expired_components(10_000).routers, 0);
    assert_eq!(again.sweep_expired_components(10_001).routers, 1);
    // The counts were rebuilt as well: the zone keeps what the other shard owns.
    again.update_segments(text("a"), text("us"), texts(&["x", "y"]));
    assert_eq!(again.zone_segments("eu").1, texts(&["y", "z"]));
}

#[test]
fn kept_segments_are_handed_out_as_they_were_kept() {
    let mut by_shard = NameMap::new();
    by_shard.insert(
        text("a"),
        ShardSegments {
            zone_id: text("eu"),
            segments: SegmentSet {
                set: NameList::from_vec(&texts(&["x"])),
                sorted: texts(&["y"]),
            },
        },
    );
    let kept = PersistedState {
        components: Components::new(),
        segments: SegmentStore { by_shard },
        versions: NameMap::new(),
        global_version: 7,
    };
    assert_eq!(kept.shard_count(), 1);
    let state = AppState::new(Some(Ok(kept)), 60, 100, Codecs::default(), 0);
    assert_eq!(state.shard_segments("a").unwrap(), (0, text("eu"), texts(&["y"])));
    assert_eq!(state.zone_segments("eu"), (0, texts(&["x"])));
    assert_eq!(state.version_manifest().global_version, 7);
}

#[test]
fn room_runs_out_with_the_versions() {
    let state = empty(60);
    assert!(state.has_room());
    let kept = |global: u64, held: u64| {
        let mut versions = NameMap::new();
        versions.insert(text("zones/eu/routers"), held);
        let mut components = Components::new();
        components.routers.insert(
            text("r1"),
            RouterInfo { zone_id: text("eu"), last_seen_ms: 0 },
        );
        let p = PersistedState {
            components,
            segments: SegmentStore { by_shard: NameMap::new() },
            versions,
            global_version: global,
        };
        AppState::new(Some(Ok(p)), 60, 100, Codecs::default(), 0)
    };
    assert!(kept(u64::MAX - 4, u64::MAX - 4).has_room());
    assert!(!kept(u64::MAX - 3, 0).has_room());
    assert!(!kept(0, u64::MAX - 3).has_room());
}

#[test]
fn buffer_time_is_kept() {
    assert_eq!(empty(60).buffer_ms(), 100);
}
