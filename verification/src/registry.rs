//! The operations on the runtime state: registration, segment ownership,
//! heartbeat expiry and versions.

use vstd::prelude::*;

use crate::index::{
    count_at, counts_of, entry_lists, lemma_kept, mapping_at, owners_counted,
    rebuild_shard_nodes, rebuild_zone_routers, rebuild_zone_shards, zone_bridges_indexed,
    AppData,
};
use crate::keys::{
    shard_nodes_key, shard_segments_key, zone_routers_key, zone_segments_key, zone_shards_key,
};
use crate::model::{
    bridge_keys, bridge_registered, bridges_in, bump, counts_fit, lemma_room_prefix, listing,
    node_keys, node_registered, nodes_in, room, router_keys, router_registered, routers_in,
    segment_keys, segments_same, segments_updated, shards_in, shards_updated, version,
    zone_changes, BridgeView, NodeView, RegistryView, RouterView, ShardView,
};
use crate::names::same_names;
use crate::records::{
    BridgeId, BridgeInfo, NodeId, NodeInfo, RouterId, RouterInfo, Segment, SegmentSet, ShardId,
    ShardSegments, Version, ZoneId,
};
use crate::segments::{
    add_shard_segments_to_zone, lemma_owners_added, lemma_owners_bound, lemma_owners_removed,
    remove_shard_segments_from_zone, zone_segment_list,
};

verus! {

/// Counts one more change of a dataset, and one more change overall.
pub fn bump_version(data: &mut AppData, key: String)
    requires
        version(old(data)@.versions, key@) < u64::MAX,
        old(data).global_version < u64::MAX,
    ensures
        final(data)@ == bump(old(data)@, key@),
        *final(data) == (AppData {
            versions: final(data).versions,
            global_version: final(data).global_version,
            ..*old(data)
        }),
{
    let held: Version = get_version(data, key.as_str());
    data.versions.insert(key, held + 1);
    data.global_version = data.global_version + 1;
}

/// The version of a dataset; zero when the dataset never existed.
pub fn get_version(data: &AppData, key: &str) -> (r: Version)
    ensures
        r == version(data@.versions, key@),
        data@.versions.contains_key(key@) ==> r == data@.versions[key@],
        !data@.versions.contains_key(key@) ==> r == 0,
{
    match data.versions.get(key) {
        Some(held) => *held,
        None => 0,
    }
}

/// Registers or refreshes a router; tells whether a dataset changed.
pub fn register_router(data: &mut AppData, id: RouterId, zone_id: ZoneId, now: u64) -> (r: bool)
    requires
        old(data).well_formed(),
        room(old(data)@, router_keys(old(data)@, id@, zone_id@)),
    ensures
        final(data).well_formed(),
        final(data)@ == router_registered(old(data)@, id@, zone_id@, now),
        r <==> router_keys(old(data)@, id@, zone_id@).len() > 0,
{
    let ghost start = data@;
    let ghost keys = router_keys(start, id@, zone_id@);
    let ghost base = RegistryView {
        routers: start.routers.insert(id@, RouterView { zone: zone_id@, last_seen: now }),
        ..start
    };
    let old_zone: Option<String> = match data.components.routers.get(id.as_str()) {
        Some(info) => Some(info.zone_id.clone()),
        None => None,
    };
    let topology_changed = match &old_zone {
        Some(zone) => *zone != zone_id,
        None => true,
    };
    data.components.routers.insert(id, RouterInfo { zone_id: zone_id.clone(), last_seen_ms: now });
    assert(data@ =~= base);
    proof {
        assert(room(base, keys));
        assert(keys.take(0) =~= Seq::<Seq<char>>::empty());
        assert(keys.take(keys.len() as int) =~= keys);
        assert forall|zone: Seq<char>| zone != zone_id@ && (start.routers.contains_key(id@) ==> zone
            != start.routers[id@].zone) implies routers_in(base.routers, zone) == routers_in(start.routers, zone) by {
            assert(routers_in(base.routers, zone) =~= routers_in(start.routers, zone));
        }
    }
    let ghost before = data.indexes.routers_by_zone@;
    let ghost mut left = before;
    if topology_changed {
        if let Some(zone) = &old_zone {
            proof {
                lemma_room_prefix(base, keys, 0);
                lemma_room_prefix(base, keys, 1);
            }
            rebuild_zone_routers(data, zone.as_str());
            bump_version(data, zone_routers_key(zone.as_str()));
            proof {
                left = data.indexes.routers_by_zone@;
            }
        } else {
            proof {
                lemma_room_prefix(base, keys, 0);
            }
        }
        rebuild_zone_routers(data, zone_id.as_str());
        bump_version(data, zone_routers_key(zone_id.as_str()));
    } else {
        assert(routers_in(base.routers, zone_id@) =~= routers_in(start.routers, zone_id@));
    }
    proof {
        let after = data.indexes.routers_by_zone@;
        assert forall|zone: Seq<char>| #[trigger] entry_lists(after, zone, routers_in(base.routers, zone)) by {
            assert(entry_lists(before, zone, routers_in(start.routers, zone)));
            if topology_changed && zone != zone_id@ {
                lemma_kept(left, after, zone_id@, zone);
                if old_zone is Some && zone != old_zone->0@ {
                    lemma_kept(before, left, old_zone->0@, zone);
                }
            }
        }
    }
    topology_changed
}

/// Registers or refreshes a bridge; tells whether a dataset changed.
pub fn register_bridge(data: &mut AppData, id: BridgeId, shard_id: ShardId, zone_id: ZoneId, now: u64) -> (r: bool)
    requires
        old(data).well_formed(),
        room(old(data)@, bridge_keys(old(data)@, id@, shard_id@, zone_id@)),
    ensures
        final(data).well_formed(),
        final(data)@ == bridge_registered(old(data)@, id@, shard_id@, zone_id@, now),
        r <==> bridge_keys(old(data)@, id@, shard_id@, zone_id@).len() > 0,
{
    let ghost start = data@;
    let ghost keys = bridge_keys(start, id@, shard_id@, zone_id@);
    let ghost base = RegistryView {
        bridges: start.bridges.insert(id@, BridgeView { shard: shard_id@, zone: zone_id@, last_seen: now }),
        ..start
    };
    let old: Option<BridgeInfo> = match data.components.bridges.get(id.as_str()) {
        Some(info) => Some(info.clone()),
        None => None,
    };
    let topology_changed = match &old {
        Some(info) => info.shard_id != shard_id || info.zone_id != zone_id,
        None => true,
    };
    let ghost left_zone = if old is Some {
        old->0.zone_id@
    } else {
        zone_id@
    };
    data.components.bridges.insert(
        id,
        BridgeInfo { shard_id: shard_id.clone(), zone_id: zone_id.clone(), last_seen_ms: now },
    );
    assert(data@ =~= base);
    proof {
        assert(room(base, keys));
        assert(keys.take(0) =~= Seq::<Seq<char>>::empty());
        assert(keys.take(keys.len() as int) =~= keys);
        assert forall|zone: Seq<char>, shard: Seq<char>|
            (!topology_changed || zone != zone_id@ && zone != left_zone) implies #[trigger] bridges_in(
            base.bridges,
            zone,
            shard,
        ) == bridges_in(start.bridges, zone, shard) by {
            assert(bridges_in(base.bridges, zone, shard) =~= bridges_in(start.bridges, zone, shard));
        }
    }
    let ghost before = data.indexes.bridges_by_zone_shard@;
    let ghost mut left = before;
    if topology_changed {
        if let Some(info) = &old {
            proof {
                lemma_room_prefix(base, keys, 0);
                lemma_room_prefix(base, keys, 1);
            }
            rebuild_zone_shards(data, info.zone_id.as_str());
            bump_version(data, zone_shards_key(info.zone_id.as_str()));
            proof {
                left = data.indexes.bridges_by_zone_shard@;
            }
        } else {
            proof {
                lemma_room_prefix(base, keys, 0);
            }
        }
        rebuild_zone_shards(data, zone_id.as_str());
        bump_version(data, zone_shards_key(zone_id.as_str()));
    }
    proof {
        let after = data.indexes.bridges_by_zone_shard@;
        assert forall|zone: Seq<char>| #[trigger] zone_bridges_indexed(after, base.bridges, zone) by {
            assert(zone_bridges_indexed(before, start.bridges, zone));
            if topology_changed && zone != zone_id@ {
                lemma_kept(left, after, zone_id@, zone);
                if old is Some && zone != left_zone {
                    lemma_kept(before, left, left_zone, zone);
                }
            }
            if !topology_changed || zone != zone_id@ && zone != left_zone {
                assert(mapping_at(after, zone) == mapping_at(before, zone));
                assert forall|shard: Seq<char>|
                    #[trigger] entry_lists(mapping_at(after, zone), shard, bridges_in(base.bridges, zone, shard)) by {
                    assert(entry_lists(mapping_at(before, zone), shard, bridges_in(start.bridges, zone, shard)));
                }
                assert forall|shard: Seq<char>|
                    shards_in(base.bridges, zone).contains(shard) == shards_in(start.bridges, zone).contains(shard) by {
                    assert(bridges_in(base.bridges, zone, shard) == bridges_in(start.bridges, zone, shard));
                }
                assert(shards_in(base.bridges, zone) =~= shards_in(start.bridges, zone));
            } else if zone != zone_id@ {
                assert(zone_bridges_indexed(left, base.bridges, zone));
                assert(mapping_at(after, zone) == mapping_at(left, zone));
            }
        }
    }
    topology_changed
}

/// Registers or refreshes a node; tells whether a dataset changed.
pub fn register_node(data: &mut AppData, id: NodeId, shard_id: ShardId, zone_id: ZoneId, now: u64) -> (r: bool)
    requires
        old(data).well_formed(),
        room(old(data)@, node_keys(old(data)@, id@, shard_id@)),
    ensures
        final(data).well_formed(),
        final(data)@ == node_registered(old(data)@, id@, shard_id@, zone_id@, now),
        r <==> node_keys(old(data)@, id@, shard_id@).len() > 0,
{
    let ghost start = data@;
    let ghost keys = node_keys(start, id@, shard_id@);
    let ghost base = RegistryView {
        nodes: start.nodes.insert(id@, NodeView { shard: shard_id@, zone: zone_id@, last_seen: now }),
        ..start
    };
    let old_shard: Option<String> = match data.components.nodes.get(id.as_str()) {
        Some(info) => Some(info.shard_id.clone()),
        None => None,
    };
    let topology_changed = match &old_shard {
        Some(shard) => *shard != shard_id,
        None => true,
    };
    data.components.nodes.insert(id, NodeInfo { shard_id: shard_id.clone(), zone_id, last_seen_ms: now });
    assert(data@ =~= base);
    proof {
        assert(room(base, keys));
        assert(keys.take(0) =~= Seq::<Seq<char>>::empty());
        assert(keys.take(keys.len() as int) =~= keys);
        assert forall|shard: Seq<char>| shard != shard_id@ && (start.nodes.contains_key(id@) ==> shard
            != start.nodes[id@].shard) implies nodes_in(base.nodes, shard) == nodes_in(start.nodes, shard) by {
            assert(nodes_in(base.nodes, shard) =~= nodes_in(start.nodes, shard));
        }
    }
    let ghost before = data.indexes.nodes_by_shard@;
    let ghost mut left = before;
    if topology_changed {
        if let Some(shard) = &old_shard {
            proof {
                lemma_room_prefix(base, keys, 0);
                lemma_room_prefix(base, keys, 1);
            }
            rebuild_shard_nodes(data, shard.as_str());
            bump_version(data, shard_nodes_key(shard.as_str()));
            proof {
                left = data.indexes.nodes_by_shard@;
            }
        } else {
            proof {
                lemma_room_prefix(base, keys, 0);
            }
        }
        rebuild_shard_nodes(data, shard_id.as_str());
        bump_version(data, shard_nodes_key(shard_id.as_str()));
    } else {
        assert(nodes_in(base.nodes, shard_id@) =~= nodes_in(start.nodes, shard_id@));
    }
    proof {
        let after = data.indexes.nodes_by_shard@;
        assert forall|shard: Seq<char>| #[trigger] entry_lists(after, shard, nodes_in(base.nodes, shard)) by {
            assert(entry_lists(before, shard, nodes_in(start.nodes, shard)));
            if topology_changed && shard != shard_id@ {
                lemma_kept(left, after, shard_id@, shard);
                if old_shard is Some && shard != old_shard->0@ {
                    lemma_kept(before, left, old_shard->0@, shard);
                }
            }
        }
    }
    topology_changed
}

/// Replaces a shard's segment ownership; tells whether anything changed.
pub fn update_segments(data: &mut AppData, shard_id: ShardId, zone_id: ZoneId, segments: Vec<Segment>) -> (r: bool)
    requires
        old(data).well_formed(),
        segments_same(old(data)@, shard_id@, zone_id@, segments.deep_view().to_set()) || {
            &&& counts_fit(shards_updated(old(data)@.shards, shard_id@, zone_id@, segments.deep_view().to_set()))
            &&& room(old(data)@, segment_keys(old(data)@, shard_id@, zone_id@, segments.deep_view().to_set()))
        },
    ensures
        final(data).well_formed(),
        final(data)@ == segments_updated(old(data)@, shard_id@, zone_id@, segments.deep_view().to_set()),
        r <==> !segments_same(old(data)@, shard_id@, zone_id@, segments.deep_view().to_set()),
{
    let ghost start = data@;
    let ghost set = segments.deep_view().to_set();
    let ghost refs = data.indexes.segment_refs_by_zone@;
    let new_segments = SegmentSet::new(segments);
    if let Some(held) = data.segments.by_shard.get(shard_id.as_str()) {
        if held.zone_id == zone_id && held.segments.same_contents(&new_segments) {
            return false;
        }
    }
    let ghost keys = segment_keys(start, shard_id@, zone_id@, set);
    let ghost rest = start.shards.remove(shard_id@);
    let ghost record = ShardView { zone: zone_id@, set, sorted: listing(set) };
    let ghost base = RegistryView { shards: start.shards.insert(shard_id@, record), ..start };
    assert(rest.insert(shard_id@, record) =~= base.shards);
    // What the readers of the two zones see before.
    let left: Option<ZoneId> = match data.segments.by_shard.get(shard_id.as_str()) {
        Some(held) => if held.zone_id != zone_id {
            Some(held.zone_id.clone())
        } else {
            None
        },
        None => None,
    };
    let left_before: Vec<Segment> = match &left {
        Some(zone) => zone_segment_list(data, zone.as_str()),
        None => Vec::new(),
    };
    let before: Vec<Segment> = zone_segment_list(data, zone_id.as_str());
    // Take the old ownership out of its zone.
    let held: Option<ShardSegments> = data.segments.by_shard.remove(shard_id.as_str());
    if let Some(held) = held {
        remove_shard_segments_from_zone(data, held.zone_id.as_str(), &held.segments);
        proof {
            lemma_owners_removed(refs, data.indexes.segment_refs_by_zone@, start.shards, shard_id@);
        }
    } else {
        assert(rest =~= start.shards);
    }
    let ghost between = data.indexes.segment_refs_by_zone@;
    assert(owners_counted(between, rest));
    // Put the new ownership into its zone.
    proof {
        lemma_owners_bound(between, rest, shard_id@, record);
        assert forall|segment: Seq<char>| new_segments.set@.contains(segment) implies #[trigger] count_at(
            counts_of(between, zone_id@),
            segment,
        ) < u32::MAX by {
            assert(set.contains(segment));
            assert(count_at(counts_of(between, record.zone), segment) < u32::MAX);
        }
    }
    add_shard_segments_to_zone(data, zone_id.as_str(), &new_segments);
    proof {
        lemma_owners_added(between, data.indexes.segment_refs_by_zone@, rest, shard_id@, record);
    }
    let ghost shard = shard_id@;
    let shard_key = shard_segments_key(shard_id.as_str());
    data.segments.by_shard.insert(shard_id, ShardSegments { zone_id: zone_id.clone(), segments: new_segments });
    assert(data@ =~= base);
    proof {
        assert(room(base, keys));
        assert(keys.take(0) =~= Seq::<Seq<char>>::empty());
        assert(keys.take(keys.len() as int) =~= keys);
        lemma_room_prefix(base, keys, 0);
    }
    let left_changed = match &left {
        Some(zone) => !same_names(&left_before, &zone_segment_list(data, zone.as_str())),
        None => false,
    };
    let changed = !same_names(&before, &zone_segment_list(data, zone_id.as_str()));
    assert(changed <==> zone_changes(start, shard, zone_id@, set, zone_id@));
    bump_version(data, shard_key);
    // A zone's version counts only what its readers can see.
    if let Some(zone) = &left {
        assert(left_changed <==> zone_changes(start, shard, zone_id@, set, zone@));
        if left_changed {
            proof {
                lemma_room_prefix(base, keys, 1);
            }
            bump_version(data, zone_segments_key(zone.as_str()));
        }
    }
    if changed {
        proof {
            lemma_room_prefix(base, keys, keys.len() - 1);
        }
        bump_version(data, zone_segments_key(zone_id.as_str()));
    }
    true
}

} // verus!
