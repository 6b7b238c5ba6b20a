//! What holds of the directory as a whole.

use vstd::prelude::*;

use crate::change::{change_keys, changed, finite_change, finitely_many, lemma_swept_places, Change};
use crate::codecs::{features_hash, lowered};
use crate::keys::{key_of, law_keys_distinct, Dataset};
use crate::model::{
    bridge_keys, bridge_registered, bridges_in, bump_each, empty_registry, expired_bridges,
    expired_nodes, expired_routers, lemma_bump_append, lemma_bump_each, lemma_listed,
    lemma_listing, lemma_times_append, lemma_times_bound, listing, node_keys, node_registered,
    nodes_in, owners, room, router_keys, router_registered, routers_in, segment_keys,
    segments_in, segments_same, segments_updated, shard_mapping, shard_nodes_keys, shards_in,
    shards_updated, started, sweep_keys, swept, swept_bridge_zones, swept_node_shards,
    swept_router_zones, times, version, without_expired, zone_changes, zone_routers_keys,
    zone_shards_keys, BridgeView, NodeView, RegistryView, RouterView, ShardView,
};
use crate::names::lists;
use crate::state::{after, snapshot_taken, unsaved, write_ended, AppView};
use crate::sweep::lemma_unswept;

verus! {

// ----------------------------------------------------------------------------
// Changes and datasets
// ----------------------------------------------------------------------------

/// The records after a change, with the versions of before.
spec fn recorded(v: RegistryView, c: Change) -> RegistryView {
    match c {
        Change::Router { id, zone, now } => RegistryView {
            routers: v.routers.insert(id, RouterView { zone, last_seen: now }),
            ..v
        },
        Change::Bridge { id, shard, zone, now } => RegistryView {
            bridges: v.bridges.insert(id, BridgeView { shard, zone, last_seen: now }),
            ..v
        },
        Change::Node { id, shard, zone, now } => RegistryView {
            nodes: v.nodes.insert(id, NodeView { shard, zone, last_seen: now }),
            ..v
        },
        Change::Segments { shard, zone, set } => if segments_same(v, shard, zone, set) {
            v
        } else {
            RegistryView { shards: shards_updated(v.shards, shard, zone, set), ..v }
        },
        Change::Sweep { now, timeout } => without_expired(v, now, timeout),
    }
}

/// Every shard hands out exactly the segments that it owns.
pub open spec fn normalized(v: RegistryView) -> bool {
    forall|shard: Seq<char>| #[trigger]
        v.shards.contains_key(shard) ==> v.shards[shard].sorted == listing(v.shards[shard].set)
}

/// What a dataset holds.
pub enum Content {
    Names(Seq<Seq<char>>),
    Mapping(Map<Seq<char>, Seq<Seq<char>>>),
    Owned(Option<(Seq<char>, Seq<Seq<char>>)>),
}

/// What a query for a dataset is answered with.
pub open spec fn content(v: RegistryView, d: Dataset) -> Content {
    match d {
        Dataset::ZoneRouters(zone) => Content::Names(listing(routers_in(v.routers, zone))),
        Dataset::ZoneShards(zone) => Content::Mapping(shard_mapping(v.bridges, zone)),
        Dataset::ZoneSegments(zone) => Content::Names(listing(segments_in(v.shards, zone))),
        Dataset::ShardSegments(shard) => Content::Owned(
            if v.shards.contains_key(shard) {
                Some((v.shards[shard].zone, v.shards[shard].sorted))
            } else {
                None
            },
        ),
        Dataset::ShardNodes(shard) => Content::Names(listing(nodes_in(v.nodes, shard))),
    }
}

/// A change counts up the versions of its datasets on top of its records.
proof fn lemma_changed(v: RegistryView, c: Change)
    requires
        room(v, change_keys(v, c)),
    ensures
        changed(v, c) == bump_each(recorded(v, c), change_keys(v, c)),
        changed(v, c) == (RegistryView {
            versions: changed(v, c).versions,
            global_version: changed(v, c).global_version,
            ..recorded(v, c)
        }),
        changed(v, c).global_version == v.global_version + change_keys(v, c).len(),
        forall|key: Seq<char>|
            #![trigger version(changed(v, c).versions, key)]
            version(changed(v, c).versions, key) == version(v.versions, key) + times(change_keys(v, c), key),
        forall|key: Seq<char>|
            #![trigger changed(v, c).versions.contains_key(key)]
            changed(v, c).versions.contains_key(key) <==> v.versions.contains_key(key) || change_keys(v, c).contains(
                key,
            ),
{
    let base = recorded(v, c);
    let keys = change_keys(v, c);
    assert(room(base, keys));
    lemma_bump_each(base, keys);
    assert(changed(v, c) == bump_each(base, keys));
}

// ----------------------------------------------------------------------------
// Versions tell of changes
// ----------------------------------------------------------------------------

/// No version ever goes down, and none that was ever kept vanishes.
pub proof fn law_versions_never_decrease(v: RegistryView, c: Change, key: Seq<char>)
    requires
        room(v, change_keys(v, c)),
    ensures
        version(changed(v, c).versions, key) >= version(v.versions, key),
        v.versions.contains_key(key) ==> changed(v, c).versions.contains_key(key),
        changed(v, c).global_version >= v.global_version,
{
    lemma_changed(v, c);
}

/// A router registration leaves alone what it does not count.
proof fn lemma_router_kept(v: RegistryView, id: Seq<char>, zone: Seq<char>, now: u64, other: Seq<char>)
    requires
        !router_keys(v, id, zone).contains(key_of(Dataset::ZoneRouters(other))),
    ensures
        routers_in(v.routers.insert(id, RouterView { zone, last_seen: now }), other) == routers_in(v.routers, other),
{
    let keys = router_keys(v, id, zone);
    if keys.len() > 0 {
        assert(keys.last() == key_of(Dataset::ZoneRouters(zone)));
        assert(keys.contains(keys.last()));
        assert(keys.contains(keys[0]));
    }
    assert(routers_in(v.routers.insert(id, RouterView { zone, last_seen: now }), other) =~= routers_in(
        v.routers,
        other,
    ));
}

/// A bridge registration leaves alone what it does not count.
proof fn lemma_bridge_kept(v: RegistryView, id: Seq<char>, shard: Seq<char>, zone: Seq<char>, now: u64, other: Seq<char>)
    requires
        !bridge_keys(v, id, shard, zone).contains(key_of(Dataset::ZoneShards(other))),
    ensures
        shard_mapping(v.bridges.insert(id, BridgeView { shard, zone, last_seen: now }), other) == shard_mapping(
            v.bridges,
            other,
        ),
{
    let keys = bridge_keys(v, id, shard, zone);
    let after = v.bridges.insert(id, BridgeView { shard, zone, last_seen: now });
    if keys.len() > 0 {
        assert(keys.last() == key_of(Dataset::ZoneShards(zone)));
        assert(keys.contains(keys.last()));
        assert(keys.contains(keys[0]));
    }
    lemma_same_mapping(v.bridges, after, other);
}

/// Zones whose shards have the same bridges have the same mapping.
proof fn lemma_same_mapping(a: Map<Seq<char>, BridgeView>, b: Map<Seq<char>, BridgeView>, zone: Seq<char>)
    requires
        forall|id: Seq<char>|
            (a.contains_key(id) && a[id].zone == zone) == (#[trigger] b.contains_key(id) && b[id].zone == zone) && (
            a.contains_key(id) && a[id].zone == zone ==> a[id].shard == b[id].shard),
    ensures
        shard_mapping(a, zone) == shard_mapping(b, zone),
{
    assert forall|shard: Seq<char>| #[trigger] bridges_in(a, zone, shard) == bridges_in(b, zone, shard) by {
        assert(bridges_in(a, zone, shard) =~= bridges_in(b, zone, shard));
    }
    assert forall|shard: Seq<char>| shards_in(a, zone).contains(shard) == shards_in(b, zone).contains(shard) by {
        assert(bridges_in(a, zone, shard) == bridges_in(b, zone, shard));
    }
    assert(shard_mapping(a, zone) =~= shard_mapping(b, zone));
}

/// A node registration leaves alone what it does not count.
proof fn lemma_node_kept(v: RegistryView, id: Seq<char>, shard: Seq<char>, zone: Seq<char>, now: u64, other: Seq<char>)
    requires
        !node_keys(v, id, shard).contains(key_of(Dataset::ShardNodes(other))),
    ensures
        nodes_in(v.nodes.insert(id, NodeView { shard, zone, last_seen: now }), other) == nodes_in(v.nodes, other),
{
    let keys = node_keys(v, id, shard);
    if keys.len() > 0 {
        assert(keys.last() == key_of(Dataset::ShardNodes(shard)));
        assert(keys.contains(keys.last()));
        assert(keys.contains(keys[0]));
    }
    assert(nodes_in(v.nodes.insert(id, NodeView { shard, zone, last_seen: now }), other) =~= nodes_in(v.nodes, other));
}

/// What a zone holds is what its other shards hold and what one shard holds
/// there.
proof fn lemma_zone_parts(shards: Map<Seq<char>, ShardView>, shard: Seq<char>, zone: Seq<char>)
    ensures
        segments_in(shards, zone) == if shards.contains_key(shard) && shards[shard].zone == zone {
            segments_in(shards.remove(shard), zone).union(shards[shard].set)
        } else {
            segments_in(shards.remove(shard), zone)
        },
{
    let rest = shards.remove(shard);
    let here = shards.contains_key(shard) && shards[shard].zone == zone;
    assert forall|segment: Seq<char>| segments_in(shards, zone).contains(segment) == (segments_in(rest, zone).contains(
        segment,
    ) || here && shards[shard].set.contains(segment)) by {
        if segments_in(shards, zone).contains(segment) {
            let owner = choose|owner: Seq<char>| owners(shards, zone, segment).contains(owner);
            if owner != shard {
                assert(owners(rest, zone, segment).contains(owner));
            }
        }
        if segments_in(rest, zone).contains(segment) {
            let owner = choose|owner: Seq<char>| owners(rest, zone, segment).contains(owner);
            assert(owners(shards, zone, segment).contains(owner));
        }
        if here && shards[shard].set.contains(segment) {
            assert(owners(shards, zone, segment).contains(shard));
        }
    }
    assert(segments_in(shards, zone) =~= if here {
        segments_in(rest, zone).union(shards[shard].set)
    } else {
        segments_in(rest, zone)
    });
}

/// A segment update leaves alone what it does not count.
proof fn lemma_segments_kept(v: RegistryView, shard: Seq<char>, zone: Seq<char>, set: Set<Seq<char>>, other: Seq<char>)
    requires
        !segment_keys(v, shard, zone, set).contains(key_of(Dataset::ZoneSegments(other))),
    ensures
        segments_in(shards_updated(v.shards, shard, zone, set), other) == segments_in(v.shards, other),
{
    let keys = segment_keys(v, shard, zone, set);
    let after = shards_updated(v.shards, shard, zone, set);
    let rest = v.shards.remove(shard);
    if zone_changes(v, shard, zone, set, zone) {
        assert(keys.last() == key_of(Dataset::ZoneSegments(zone)));
        assert(keys.contains(keys.last()));
    }
    if v.shards.contains_key(shard) && v.shards[shard].zone == other && other != zone && zone_changes(
        v,
        shard,
        zone,
        set,
        other,
    ) {
        assert(keys[1] == key_of(Dataset::ZoneSegments(other)));
        assert(keys.contains(keys[1]));
    }
    assert(after.remove(shard) =~= rest);
    lemma_zone_parts(v.shards, shard, other);
    lemma_zone_parts(after, shard, other);
}

/// A sweep counts exactly the places of what it removes.
pub proof fn lemma_sweep_keys(v: RegistryView, now: u64, timeout: u64, d: Dataset)
    requires
        finitely_many(v),
    ensures
        sweep_keys(v, now, timeout).contains(key_of(d)) <==> match d {
            Dataset::ZoneRouters(zone) => swept_router_zones(v, now, timeout).contains(zone),
            Dataset::ZoneShards(zone) => swept_bridge_zones(v, now, timeout).contains(zone),
            Dataset::ShardNodes(shard) => swept_node_shards(v, now, timeout).contains(shard),
            _ => false,
        },
{
    lemma_swept_places(v, now, timeout);
    let zones = listing(swept_router_zones(v, now, timeout));
    let bridged = listing(swept_bridge_zones(v, now, timeout));
    let shards = listing(swept_node_shards(v, now, timeout));
    let a = zone_routers_keys(zones);
    let b = zone_shards_keys(bridged);
    let c = shard_nodes_keys(shards);
    let keys = sweep_keys(v, now, timeout);
    assert(keys == a + b + c);
    if keys.contains(key_of(d)) {
        let i = choose|i: int| 0 <= i < keys.len() && keys[i] == key_of(d);
        if i < a.len() {
            law_keys_distinct(d, Dataset::ZoneRouters(zones[i]));
            assert(zones.to_set().contains(zones[i]));
        } else if i < a.len() + b.len() {
            law_keys_distinct(d, Dataset::ZoneShards(bridged[i - a.len()]));
            assert(bridged.to_set().contains(bridged[i - a.len()]));
        } else {
            law_keys_distinct(d, Dataset::ShardNodes(shards[i - a.len() - b.len()]));
            assert(shards.to_set().contains(shards[i - a.len() - b.len()]));
        }
    }
    match d {
        Dataset::ZoneRouters(zone) => {
            if swept_router_zones(v, now, timeout).contains(zone) {
                assert(zones.to_set().contains(zone));
                let i = choose|i: int| 0 <= i < zones.len() && zones[i] == zone;
                assert(keys[i] == key_of(d));
            }
        },
        Dataset::ZoneShards(zone) => {
            if swept_bridge_zones(v, now, timeout).contains(zone) {
                assert(bridged.to_set().contains(zone));
                let i = choose|i: int| 0 <= i < bridged.len() && bridged[i] == zone;
                assert(keys[a.len() + i] == key_of(d));
            }
        },
        Dataset::ShardNodes(shard) => {
            if swept_node_shards(v, now, timeout).contains(shard) {
                assert(shards.to_set().contains(shard));
                let i = choose|i: int| 0 <= i < shards.len() && shards[i] == shard;
                assert(keys[a.len() + b.len() + i] == key_of(d));
            }
        },
        _ => {},
    }
}

/// A change leaves alone the datasets that it does not count.
proof fn lemma_kept_content(v: RegistryView, c: Change, d: Dataset)
    requires
        finitely_many(v),
        !change_keys(v, c).contains(key_of(d)),
    ensures
        content(recorded(v, c), d) == content(v, d),
{
    match c {
        Change::Router { id, zone, now } => {
            if let Dataset::ZoneRouters(other) = d {
                lemma_router_kept(v, id, zone, now, other);
            }
        },
        Change::Bridge { id, shard, zone, now } => {
            if let Dataset::ZoneShards(other) = d {
                lemma_bridge_kept(v, id, shard, zone, now, other);
            }
        },
        Change::Node { id, shard, zone, now } => {
            if let Dataset::ShardNodes(other) = d {
                lemma_node_kept(v, id, shard, zone, now, other);
            }
        },
        Change::Segments { shard, zone, set } => {
            if !segments_same(v, shard, zone, set) {
                match d {
                    Dataset::ZoneSegments(other) => {
                        lemma_segments_kept(v, shard, zone, set, other);
                    },
                    Dataset::ShardSegments(other) => {
                        let keys = segment_keys(v, shard, zone, set);
                        assert(keys[0] == key_of(Dataset::ShardSegments(shard)));
                        assert(keys.contains(keys[0]));
                    },
                    _ => {},
                }
            }
        },
        Change::Sweep { now, timeout } => {
            lemma_sweep_keys(v, now, timeout, d);
            lemma_unswept(v, now, timeout);
            if let Dataset::ZoneShards(zone) = d {
                let base = without_expired(v, now, timeout);
                assert(!swept_bridge_zones(v, now, timeout).contains(zone));
                assert(shards_in(base.bridges, zone) == shards_in(v.bridges, zone));
                assert forall|shard: Seq<char>| bridges_in(base.bridges, zone, shard) == bridges_in(
                    v.bridges,
                    zone,
                    shard,
                ) by {}
                assert(shard_mapping(base.bridges, zone) =~= shard_mapping(v.bridges, zone));
            }
        },
    }
}

/// Whoever compares versions misses nothing: when the answer for a dataset
/// changes, its version grows, and so does the overall version.
pub proof fn law_changed_answer_has_a_new_version(v: RegistryView, c: Change, d: Dataset)
    requires
        finitely_many(v),
        room(v, change_keys(v, c)),
        content(changed(v, c), d) != content(v, d),
    ensures
        version(changed(v, c).versions, key_of(d)) > version(v.versions, key_of(d)),
        changed(v, c).global_version > v.global_version,
{
    lemma_changed(v, c);
    let keys = change_keys(v, c);
    if !keys.contains(key_of(d)) {
        lemma_kept_content(v, c, d);
        assert(content(changed(v, c), d) == content(recorded(v, c), d));
    }
    lemma_times_bound(keys, key_of(d));
}

/// Listings of different finite sets differ.
proof fn lemma_listings_differ(a: Set<Seq<char>>, b: Set<Seq<char>>, n: Seq<char>)
    requires
        a.finite(),
        b.finite(),
        a.contains(n) != b.contains(n),
    ensures
        listing(a) != listing(b),
{
    lemma_listed(a);
    lemma_listed(b);
    assert(listing(a).to_set().contains(n) != listing(b).to_set().contains(n));
}

/// The groups of finitely many records are finite.
proof fn lemma_groups_finite(v: RegistryView)
    requires
        finitely_many(v),
    ensures
        forall|zone: Seq<char>| (#[trigger] routers_in(v.routers, zone)).finite(),
        forall|zone: Seq<char>, shard: Seq<char>| (#[trigger] bridges_in(v.bridges, zone, shard)).finite(),
        forall|shard: Seq<char>| (#[trigger] nodes_in(v.nodes, shard)).finite(),
{
    assert forall|zone: Seq<char>| (#[trigger] routers_in(v.routers, zone)).finite() by {
        vstd::set_lib::lemma_len_subset(routers_in(v.routers, zone), v.routers.dom());
    }
    assert forall|zone: Seq<char>, shard: Seq<char>| (#[trigger] bridges_in(v.bridges, zone, shard)).finite() by {
        vstd::set_lib::lemma_len_subset(bridges_in(v.bridges, zone, shard), v.bridges.dom());
    }
    assert forall|shard: Seq<char>| (#[trigger] nodes_in(v.nodes, shard)).finite() by {
        vstd::set_lib::lemma_len_subset(nodes_in(v.nodes, shard), v.nodes.dom());
    }
}

/// The segments of finitely many shards that own finitely many each are
/// finitely many.
proof fn lemma_segments_finite(shards: Map<Seq<char>, ShardView>, zone: Seq<char>)
    requires
        shards.dom().finite(),
        forall|shard: Seq<char>| #[trigger] shards.contains_key(shard) ==> shards[shard].set.finite(),
    ensures
        segments_in(shards, zone).finite(),
    decreases shards.dom().len(),
{
    if shards.dom().len() == 0 {
        shards.dom().lemma_len0_is_empty();
        assert forall|segment: Seq<char>| !segments_in(shards, zone).contains(segment) by {
            if segments_in(shards, zone).contains(segment) {
                let shard = choose|shard: Seq<char>| owners(shards, zone, segment).contains(shard);
                assert(shards.dom().contains(shard));
            }
        }
        assert(segments_in(shards, zone) =~= Set::<Seq<char>>::empty());
    } else {
        let shard = shards.dom().choose();
        let rest = shards.remove(shard);
        assert(rest.dom() =~= shards.dom().remove(shard));
        assert forall|other: Seq<char>| #[trigger] rest.contains_key(other) implies rest[other].set.finite() by {
            assert(shards.contains_key(other));
        }
        lemma_segments_finite(rest, zone);
        lemma_zone_parts(shards, shard, zone);
        assert(shards.contains_key(shard));
    }
}

/// The records stay finitely many.
pub proof fn law_stays_finite(v: RegistryView, c: Change)
    requires
        finitely_many(v),
        finite_change(c),
        room(v, change_keys(v, c)),
    ensures
        finitely_many(changed(v, c)),
{
    lemma_changed(v, c);
    let base = recorded(v, c);
    match c {
        Change::Sweep { now, timeout } => {
            vstd::set_lib::lemma_len_subset(base.routers.dom(), v.routers.dom());
            vstd::set_lib::lemma_len_subset(base.bridges.dom(), v.bridges.dom());
            vstd::set_lib::lemma_len_subset(base.nodes.dom(), v.nodes.dom());
        },
        _ => {},
    }
    assert(finitely_many(base));
}

/// Every shard goes on handing out exactly the segments that it owns, and an
/// empty directory starts that way.
pub proof fn law_stays_normalized(v: RegistryView, c: Change)
    requires
        normalized(v),
        room(v, change_keys(v, c)),
    ensures
        normalized(changed(v, c)),
        normalized(empty_registry()),
{
    lemma_changed(v, c);
    assert(normalized(recorded(v, c)));
}

/// A mapping that lists a bridge differs from one that does not.
proof fn lemma_mappings_differ(
    a: Map<Seq<char>, BridgeView>,
    b: Map<Seq<char>, BridgeView>,
    zone: Seq<char>,
    shard: Seq<char>,
    id: Seq<char>,
)
    requires
        bridges_in(a, zone, shard).finite(),
        bridges_in(b, zone, shard).finite(),
        bridges_in(a, zone, shard).contains(id),
        !bridges_in(b, zone, shard).contains(id),
    ensures
        shard_mapping(a, zone) != shard_mapping(b, zone),
{
    lemma_listings_differ(bridges_in(a, zone, shard), bridges_in(b, zone, shard), id);
    assert(shards_in(a, zone).contains(shard));
    assert(shard_mapping(a, zone).contains_key(shard));
    assert(shard_mapping(a, zone)[shard] == listing(bridges_in(a, zone, shard)));
    if shard_mapping(b, zone).contains_key(shard) {
        assert(shard_mapping(b, zone)[shard] == listing(bridges_in(b, zone, shard)));
    }
}

/// A version that grows tells of a changed answer.
pub proof fn law_new_version_has_a_changed_answer(v: RegistryView, c: Change, d: Dataset)
    requires
        finitely_many(v),
        finite_change(c),
        normalized(v),
        room(v, change_keys(v, c)),
        version(changed(v, c).versions, key_of(d)) != version(v.versions, key_of(d)),
    ensures
        content(changed(v, c), d) != content(v, d),
{
    lemma_changed(v, c);
    law_stays_finite(v, c);
    let keys = change_keys(v, c);
    let base = recorded(v, c);
    let after = changed(v, c);
    lemma_times_bound(keys, key_of(d));
    assert(keys.contains(key_of(d)));
    assert(content(after, d) == content(base, d));
    lemma_groups_finite(v);
    lemma_groups_finite(after);
    let i = choose|i: int| 0 <= i < keys.len() && keys[i] == key_of(d);
    match c {
        Change::Router { id, zone, now } => {
            let at = if v.routers.contains_key(id) && i == 0 {
                v.routers[id].zone
            } else {
                zone
            };
            assert(keys[i] == key_of(Dataset::ZoneRouters(at)));
            law_keys_distinct(d, Dataset::ZoneRouters(at));
            lemma_listings_differ(routers_in(after.routers, at), routers_in(v.routers, at), id);
        },
        Change::Bridge { id, shard, zone, now } => {
            let at = if v.bridges.contains_key(id) && i == 0 {
                v.bridges[id].zone
            } else {
                zone
            };
            assert(keys[i] == key_of(Dataset::ZoneShards(at)));
            law_keys_distinct(d, Dataset::ZoneShards(at));
            if at == zone {
                assert(bridges_in(after.bridges, at, shard).contains(id));
                lemma_mappings_differ(after.bridges, v.bridges, at, shard, id);
            } else {
                let old_shard = v.bridges[id].shard;
                assert(bridges_in(v.bridges, at, old_shard).contains(id));
                lemma_mappings_differ(v.bridges, after.bridges, at, old_shard, id);
            }
        },
        Change::Node { id, shard, zone, now } => {
            let at = if v.nodes.contains_key(id) && i == 0 {
                v.nodes[id].shard
            } else {
                shard
            };
            assert(keys[i] == key_of(Dataset::ShardNodes(at)));
            law_keys_distinct(d, Dataset::ShardNodes(at));
            lemma_listings_differ(nodes_in(after.nodes, at), nodes_in(v.nodes, at), id);
        },
        Change::Segments { shard, zone, set } => {
            lemma_segment_versions(v, shard, zone, set, d);
        },
        Change::Sweep { now, timeout } => {
            lemma_sweep_keys(v, now, timeout, d);
            match d {
                Dataset::ZoneRouters(zone) => {
                    let id = choose|id: Seq<char>|
                        #[trigger] expired_routers(v, now, timeout).contains(id) && v.routers[id].zone == zone;
                    lemma_listings_differ(routers_in(after.routers, zone), routers_in(v.routers, zone), id);
                },
                Dataset::ZoneShards(zone) => {
                    let id = choose|id: Seq<char>|
                        #[trigger] expired_bridges(v, now, timeout).contains(id) && v.bridges[id].zone == zone;
                    let shard = v.bridges[id].shard;
                    assert(bridges_in(v.bridges, zone, shard).contains(id));
                    lemma_mappings_differ(v.bridges, after.bridges, zone, shard, id);
                },
                Dataset::ShardNodes(shard) => {
                    let id = choose|id: Seq<char>|
                        #[trigger] expired_nodes(v, now, timeout).contains(id) && v.nodes[id].shard == shard;
                    lemma_listings_differ(nodes_in(after.nodes, shard), nodes_in(v.nodes, shard), id);
                },
                _ => {},
            }
        },
    }
}

/// The part of [`law_new_version_has_a_changed_answer`] for segment updates.
proof fn lemma_segment_versions(v: RegistryView, shard: Seq<char>, zone: Seq<char>, set: Set<Seq<char>>, d: Dataset)
    requires
        finitely_many(v),
        set.finite(),
        normalized(v),
        !segments_same(v, shard, zone, set),
        segment_keys(v, shard, zone, set).contains(key_of(d)),
    ensures
        content(RegistryView { shards: shards_updated(v.shards, shard, zone, set), ..v }, d) != content(v, d),
{
    let keys = segment_keys(v, shard, zone, set);
    let updated = shards_updated(v.shards, shard, zone, set);
    let rest = v.shards.remove(shard);
    let i = choose|i: int| 0 <= i < keys.len() && keys[i] == key_of(d);
    if i == 0 {
        law_keys_distinct(d, Dataset::ShardSegments(shard));
        if v.shards.contains_key(shard) && v.shards[shard].zone == zone {
            let held = v.shards[shard].set;
            assert(held != set);
            if forall|segment: Seq<char>| held.contains(segment) == set.contains(segment) {
                assert(held =~= set);
            }
            let segment = choose|segment: Seq<char>| held.contains(segment) != set.contains(segment);
            lemma_listings_differ(held, set, segment);
        }
    } else {
        let at = if key_of(d) == key_of(Dataset::ZoneSegments(zone)) {
            zone
        } else {
            v.shards[shard].zone
        };
        law_keys_distinct(d, Dataset::ZoneSegments(at));
        lemma_segments_finite(v.shards, at);
        assert forall|other: Seq<char>| #[trigger] updated.contains_key(other) implies updated[other].set.finite() by {
            if other != shard {
                assert(v.shards.contains_key(other));
            }
        }
        assert(updated.dom() =~= v.shards.dom().insert(shard));
        lemma_segments_finite(updated, at);
        let a = segments_in(v.shards, at);
        let b = segments_in(updated, at);
        if at == zone && !zone_changes(v, shard, zone, set, zone) {
            // Only the key of the zone that was left could stand here.
            law_keys_distinct(Dataset::ZoneSegments(v.shards[shard].zone), Dataset::ZoneSegments(zone));
        }
        assert(a != b);
        if forall|segment: Seq<char>| a.contains(segment) == b.contains(segment) {
            assert(a =~= b);
        }
        let segment = choose|segment: Seq<char>| a.contains(segment) != b.contains(segment);
        lemma_listings_differ(a, b, segment);
    }
}

// ----------------------------------------------------------------------------
// The overall version
// ----------------------------------------------------------------------------

/// The sum of all versions that are kept.
pub open spec fn total(versions: Map<Seq<char>, u64>) -> nat
    decreases versions.dom().len(),
{
    if versions.dom().finite() && versions.dom().len() > 0 {
        let key = versions.dom().choose();
        versions[key] as nat + total(versions.remove(key))
    } else {
        0
    }
}

/// The overall version is the sum of the versions that are kept, and each of
/// these was counted at least once.
pub open spec fn tallied(v: RegistryView) -> bool {
    &&& v.versions.dom().finite()
    &&& v.global_version == total(v.versions)
    &&& forall|key: Seq<char>| #[trigger] v.versions.contains_key(key) ==> v.versions[key] >= 1
}

/// The sum does not depend on where one begins.
proof fn lemma_total(versions: Map<Seq<char>, u64>, key: Seq<char>)
    requires
        versions.dom().finite(),
        versions.contains_key(key),
    ensures
        total(versions) == versions[key] + total(versions.remove(key)),
    decreases versions.dom().len(),
{
    let first = versions.dom().choose();
    assert(versions.dom().contains(key));
    if versions.dom().len() == 0 {
        versions.dom().lemma_len0_is_empty();
    }
    assert(versions.dom().contains(first));
    let rest = versions.remove(first);
    assert(rest.dom() =~= versions.dom().remove(first));
    if key != first {
        let other = versions.remove(key);
        assert(other.dom() =~= versions.dom().remove(key));
        lemma_total(rest, key);
        lemma_total(other, first);
        assert(rest.remove(key) =~= other.remove(first));
    }
}

/// Counting keeps the sum right.
proof fn lemma_tallied(v: RegistryView, keys: Seq<Seq<char>>)
    requires
        tallied(v),
        room(v, keys),
    ensures
        tallied(bump_each(v, keys)),
    decreases keys.len(),
{
    if keys.len() > 0 {
        let key = keys.last();
        let last = seq![key];
        assert(keys =~= keys.drop_last() + last);
        lemma_bump_append(v, keys.drop_last(), last);
        lemma_tallied(v, keys.drop_last());
        let before = bump_each(v, keys.drop_last());
        lemma_times_bound(last, key);
        assert(last.contains(last[0]));
        assert(version(before.versions, key) + times(last, key) <= u64::MAX);
        let after = before.versions.insert(key, (version(before.versions, key) + 1) as u64);
        assert(after.dom() =~= before.versions.dom().insert(key));
        lemma_total(after, key);
        if before.versions.contains_key(key) {
            lemma_total(before.versions, key);
            assert(after.remove(key) =~= before.versions.remove(key));
        } else {
            assert(after.remove(key) =~= before.versions);
        }
    }
}

/// In a directory that grew from an empty one, the overall version is the sum
/// of the versions that are kept, and each of these is at least one: every
/// change keeps that.
pub proof fn law_overall_version_is_the_sum(v: RegistryView, c: Change)
    requires
        tallied(v),
        room(v, change_keys(v, c)),
    ensures
        tallied(changed(v, c)),
{
    let base = recorded(v, c);
    lemma_changed(v, c);
    assert(room(base, change_keys(v, c)));
    lemma_tallied(base, change_keys(v, c));
}

/// The overall version is the sum of the versions that are kept in an empty
/// directory, and a restart keeps that.
pub proof fn law_overall_version_survives_a_restart(v: RegistryView, now: u64)
    requires
        tallied(v),
    ensures
        tallied(empty_registry()),
        tallied(started(None, now)),
        tallied(started(Some(v), now)),
{
}

// ----------------------------------------------------------------------------
// Registration
// ----------------------------------------------------------------------------

/// A registered router is in its zone and in no other; every other router is
/// where it was.
pub proof fn law_router_is_in_its_zone(v: RegistryView, id: Seq<char>, zone: Seq<char>, now: u64, z: Seq<char>)
    requires
        room(v, router_keys(v, id, zone)),
    ensures
        routers_in(router_registered(v, id, zone, now).routers, z) == if z == zone {
            routers_in(v.routers, z).insert(id)
        } else {
            routers_in(v.routers, z).remove(id)
        },
{
    lemma_changed(v, Change::Router { id, zone, now });
    assert(routers_in(router_registered(v, id, zone, now).routers, z) =~= if z == zone {
        routers_in(v.routers, z).insert(id)
    } else {
        routers_in(v.routers, z).remove(id)
    });
}

/// A registered bridge serves its shard in its zone and nothing else; every
/// other bridge serves what it did.
pub proof fn law_bridge_serves_its_shard(
    v: RegistryView,
    id: Seq<char>,
    shard: Seq<char>,
    zone: Seq<char>,
    now: u64,
    z: Seq<char>,
    s: Seq<char>,
)
    requires
        room(v, bridge_keys(v, id, shard, zone)),
    ensures
        bridges_in(bridge_registered(v, id, shard, zone, now).bridges, z, s) == if z == zone && s == shard {
            bridges_in(v.bridges, z, s).insert(id)
        } else {
            bridges_in(v.bridges, z, s).remove(id)
        },
{
    lemma_changed(v, Change::Bridge { id, shard, zone, now });
    assert(bridges_in(bridge_registered(v, id, shard, zone, now).bridges, z, s) =~= if z == zone && s == shard {
        bridges_in(v.bridges, z, s).insert(id)
    } else {
        bridges_in(v.bridges, z, s).remove(id)
    });
}

/// A registered node belongs to its shard and to no other; every other node
/// belongs where it did.
pub proof fn law_node_belongs_to_its_shard(
    v: RegistryView,
    id: Seq<char>,
    shard: Seq<char>,
    zone: Seq<char>,
    now: u64,
    s: Seq<char>,
)
    requires
        room(v, node_keys(v, id, shard)),
    ensures
        nodes_in(node_registered(v, id, shard, zone, now).nodes, s) == if s == shard {
            nodes_in(v.nodes, s).insert(id)
        } else {
            nodes_in(v.nodes, s).remove(id)
        },
{
    lemma_changed(v, Change::Node { id, shard, zone, now });
    assert(nodes_in(node_registered(v, id, shard, zone, now).nodes, s) =~= if s == shard {
        nodes_in(v.nodes, s).insert(id)
    } else {
        nodes_in(v.nodes, s).remove(id)
    });
}

/// The registration `c`, made at `now`.
pub open spec fn made_at(c: Change, now: u64) -> Change {
    match c {
        Change::Router { id, zone, now: _ } => Change::Router { id, zone, now },
        Change::Bridge { id, shard, zone, now: _ } => Change::Bridge { id, shard, zone, now },
        Change::Node { id, shard, zone, now: _ } => Change::Node { id, shard, zone, now },
        _ => c,
    }
}

/// A registration that is repeated is a heartbeat: no version and no answer
/// changes.
pub proof fn law_repeated_registration_is_a_heartbeat(v: RegistryView, c: Change, later: u64, d: Dataset)
    requires
        finitely_many(v),
        c is Router || c is Bridge || c is Node,
        room(v, change_keys(v, c)),
    ensures
        change_keys(changed(v, c), made_at(c, later)).len() == 0,
        changed(changed(v, c), made_at(c, later)).versions == changed(v, c).versions,
        changed(changed(v, c), made_at(c, later)).global_version == changed(v, c).global_version,
        content(changed(changed(v, c), made_at(c, later)), d) == content(changed(v, c), d),
{
    lemma_changed(v, c);
    law_stays_finite(v, c);
    let w = changed(v, c);
    let again = made_at(c, later);
    assert(change_keys(w, again).len() == 0);
    assert(!change_keys(w, again).contains(key_of(d)));
    lemma_kept_content(w, again, d);
}

/// Which component a registration is about.
pub enum Component {
    Router(Seq<char>),
    Bridge(Seq<char>),
    Node(Seq<char>),
}

/// The component that a registration is about; `None` for other changes.
pub open spec fn component(c: Change) -> Option<Component> {
    match c {
        Change::Router { id, zone, now } => Some(Component::Router(id)),
        Change::Bridge { id, shard, zone, now } => Some(Component::Bridge(id)),
        Change::Node { id, shard, zone, now } => Some(Component::Node(id)),
        _ => None,
    }
}

/// The part of [`law_registrations_commute`] that goes one way.
proof fn lemma_two_registrations(v: RegistryView, a: Change, b: Change)
    requires
        component(a) is Some,
        component(b) is Some,
        component(a) != component(b),
        room(v, change_keys(v, a) + change_keys(v, b)),
    ensures
        changed(changed(v, a), b) == (RegistryView {
            versions: changed(changed(v, a), b).versions,
            global_version: changed(changed(v, a), b).global_version,
            ..recorded(recorded(v, a), b)
        }),
        changed(changed(v, a), b).global_version == v.global_version + change_keys(v, a).len() + change_keys(v, b).len(),
        forall|key: Seq<char>|
            #![trigger version(changed(changed(v, a), b).versions, key)]
            version(changed(changed(v, a), b).versions, key) == version(v.versions, key) + times(
                change_keys(v, a),
                key,
            ) + times(change_keys(v, b), key),
        forall|key: Seq<char>|
            #![trigger changed(changed(v, a), b).versions.contains_key(key)]
            changed(changed(v, a), b).versions.contains_key(key) <==> v.versions.contains_key(key) || change_keys(
                v,
                a,
            ).contains(key) || change_keys(v, b).contains(key),
{
    let ka = change_keys(v, a);
    let kb = change_keys(v, b);
    lemma_bump_append(v, ka, kb);
    lemma_changed(v, a);
    let w = changed(v, a);
    assert(change_keys(w, b) == kb);
    assert(room(w, kb)) by {
        lemma_bump_each(v, ka);
        assert forall|key: Seq<char>| version(w.versions, key) + #[trigger] times(kb, key) <= u64::MAX by {
            assert(version(w.versions, key) == version(bump_each(v, ka).versions, key));
        }
    }
    lemma_changed(w, b);
}

/// It does not matter in which order different components register.
pub proof fn law_registrations_commute(v: RegistryView, a: Change, b: Change)
    requires
        component(a) is Some,
        component(b) is Some,
        component(a) != component(b),
        room(v, change_keys(v, a) + change_keys(v, b)),
    ensures
        changed(changed(v, a), b) == changed(changed(v, b), a),
{
    let ka = change_keys(v, a);
    let kb = change_keys(v, b);
    assert(room(v, kb + ka)) by {
        assert forall|key: Seq<char>| version(v.versions, key) + #[trigger] times(kb + ka, key) <= u64::MAX by {
            lemma_times_append(ka, kb, key);
            lemma_times_append(kb, ka, key);
            assert(version(v.versions, key) + times(ka + kb, key) <= u64::MAX);
        }
    }
    lemma_two_registrations(v, a, b);
    lemma_two_registrations(v, b, a);
    let x = changed(changed(v, a), b);
    let y = changed(changed(v, b), a);
    assert(recorded(recorded(v, a), b) =~= recorded(recorded(v, b), a));
    assert forall|key: Seq<char>| x.versions.contains_key(key) == y.versions.contains_key(key) && (
    x.versions.contains_key(key) ==> x.versions[key] == y.versions[key]) by {
        assert(version(x.versions, key) == version(y.versions, key));
    }
    assert(x.versions =~= y.versions);
}

/// A component that was heard of no longer ago than the timeout survives a
/// sweep.
pub proof fn law_heartbeat_keeps_a_component(v: RegistryView, c: Change, now: u64, timeout: u64)
    requires
        room(v, change_keys(v, c)),
        room(changed(v, c), sweep_keys(changed(v, c), now, timeout)),
        match c {
            Change::Router { id, zone, now: seen } => now - seen <= timeout,
            Change::Bridge { id, shard, zone, now: seen } => now - seen <= timeout,
            Change::Node { id, shard, zone, now: seen } => now - seen <= timeout,
            _ => false,
        },
    ensures
        match c {
            Change::Router { id, zone, now: _ } => swept(changed(v, c), now, timeout).routers.contains_key(id),
            Change::Bridge { id, shard, zone, now: _ } => swept(changed(v, c), now, timeout).bridges.contains_key(id),
            Change::Node { id, shard, zone, now: _ } => swept(changed(v, c), now, timeout).nodes.contains_key(id),
            _ => true,
        },
{
    lemma_changed(v, c);
    lemma_changed(changed(v, c), Change::Sweep { now, timeout });
}

// ----------------------------------------------------------------------------
// Segment ownership
// ----------------------------------------------------------------------------

/// A shard hands out what it last published, sorted and without repetition,
/// and its zone holds that together with what its other shards own.
pub proof fn law_published_segments_read_back(v: RegistryView, shard: Seq<char>, zone: Seq<char>, set: Set<Seq<char>>)
    requires
        finitely_many(v),
        set.finite(),
        normalized(v),
        room(v, change_keys(v, (Change::Segments { shard, zone, set }))),
    ensures
        content(segments_updated(v, shard, zone, set), Dataset::ShardSegments(shard)) == Content::Owned(
            Some((zone, listing(set))),
        ),
        lists(listing(set), set),
        segments_in(segments_updated(v, shard, zone, set).shards, zone) == segments_in(
            v.shards.remove(shard),
            zone,
        ).union(set),
{
    let c = Change::Segments { shard, zone, set };
    lemma_changed(v, c);
    lemma_listed(set);
    let after = changed(v, c).shards;
    assert(after.remove(shard) =~= v.shards.remove(shard));
    lemma_zone_parts(after, shard, zone);
}

/// A zone holds a segment exactly if one of its shards owns it.
pub proof fn law_zone_holds_what_its_shards_own(v: RegistryView, zone: Seq<char>, segment: Seq<char>)
    requires
        finitely_many(v),
    ensures
        lists(listing(segments_in(v.shards, zone)), segments_in(v.shards, zone)),
        listing(segments_in(v.shards, zone)).contains(segment) <==> exists|shard: Seq<char>| #[trigger]
            v.shards.contains_key(shard) && v.shards[shard].zone == zone && v.shards[shard].set.contains(segment),
{
    lemma_segments_finite(v.shards, zone);
    lemma_listed(segments_in(v.shards, zone));
    let q = listing(segments_in(v.shards, zone));
    assert(q.contains(segment) == q.to_set().contains(segment));
    if segments_in(v.shards, zone).contains(segment) {
        let shard = choose|shard: Seq<char>| owners(v.shards, zone, segment).contains(shard);
        assert(v.shards.contains_key(shard));
    }
    if exists|shard: Seq<char>| #[trigger]
        v.shards.contains_key(shard) && v.shards[shard].zone == zone && v.shards[shard].set.contains(segment) {
        let shard = choose|shard: Seq<char>| #[trigger]
            v.shards.contains_key(shard) && v.shards[shard].zone == zone && v.shards[shard].set.contains(segment);
        assert(owners(v.shards, zone, segment).contains(shard));
    }
}

/// Publishing the same segments again changes nothing at all.
pub proof fn law_repeated_update_changes_nothing(v: RegistryView, shard: Seq<char>, zone: Seq<char>, set: Set<Seq<char>>)
    requires
        room(v, change_keys(v, (Change::Segments { shard, zone, set }))),
    ensures
        segments_updated(segments_updated(v, shard, zone, set), shard, zone, set) == segments_updated(
            v,
            shard,
            zone,
            set,
        ),
{
    lemma_changed(v, Change::Segments { shard, zone, set });
}

// ----------------------------------------------------------------------------
// Sweeps
// ----------------------------------------------------------------------------

/// A sweep removes exactly the components that were not heard of for longer
/// than the timeout; the others stay as they are, and so do the segments.
pub proof fn law_sweep_removes_the_overdue(v: RegistryView, now: u64, timeout: u64, id: Seq<char>)
    requires
        room(v, sweep_keys(v, now, timeout)),
    ensures
        swept(v, now, timeout).routers.contains_key(id) <==> v.routers.contains_key(id) && now - v.routers[id].last_seen
            <= timeout,
        swept(v, now, timeout).bridges.contains_key(id) <==> v.bridges.contains_key(id) && now - v.bridges[id].last_seen
            <= timeout,
        swept(v, now, timeout).nodes.contains_key(id) <==> v.nodes.contains_key(id) && now - v.nodes[id].last_seen
            <= timeout,
        swept(v, now, timeout).routers.contains_key(id) ==> swept(v, now, timeout).routers[id] == v.routers[id],
        swept(v, now, timeout).bridges.contains_key(id) ==> swept(v, now, timeout).bridges[id] == v.bridges[id],
        swept(v, now, timeout).nodes.contains_key(id) ==> swept(v, now, timeout).nodes[id] == v.nodes[id],
        swept(v, now, timeout).shards == v.shards,
{
    lemma_changed(v, Change::Sweep { now, timeout });
}

/// A sweep that finds nothing overdue changes nothing.
proof fn lemma_nothing_overdue(v: RegistryView, now: u64, timeout: u64)
    requires
        expired_routers(v, now, timeout) == Set::<Seq<char>>::empty(),
        expired_bridges(v, now, timeout) == Set::<Seq<char>>::empty(),
        expired_nodes(v, now, timeout) == Set::<Seq<char>>::empty(),
    ensures
        swept(v, now, timeout) == v,
        sweep_keys(v, now, timeout).len() == 0,
{
    let none = Seq::<Seq<char>>::empty();
    assert(none.to_set() =~= Set::<Seq<char>>::empty());
    lemma_listing(none, Set::empty());
    assert(swept_router_zones(v, now, timeout) =~= Set::<Seq<char>>::empty());
    assert(swept_bridge_zones(v, now, timeout) =~= Set::<Seq<char>>::empty());
    assert(swept_node_shards(v, now, timeout) =~= Set::<Seq<char>>::empty());
    assert(sweep_keys(v, now, timeout) =~= none);
    assert(without_expired(v, now, timeout) =~= v);
}

/// A second sweep at the same moment changes nothing.
pub proof fn law_repeated_sweep_changes_nothing(v: RegistryView, now: u64, timeout: u64)
    requires
        room(v, sweep_keys(v, now, timeout)),
    ensures
        swept(swept(v, now, timeout), now, timeout) == swept(v, now, timeout),
{
    lemma_changed(v, Change::Sweep { now, timeout });
    let w = swept(v, now, timeout);
    assert(expired_routers(w, now, timeout) =~= Set::<Seq<char>>::empty());
    assert(expired_bridges(w, now, timeout) =~= Set::<Seq<char>>::empty());
    assert(expired_nodes(w, now, timeout) =~= Set::<Seq<char>>::empty());
    lemma_nothing_overdue(w, now, timeout);
}

// ----------------------------------------------------------------------------
// Restarts
// ----------------------------------------------------------------------------

/// A restart from what was kept gives every answer and every version of
/// before.
pub proof fn law_restart_keeps_every_answer(v: RegistryView, now: u64, d: Dataset)
    ensures
        content(started(Some(v), now), d) == content(v, d),
        started(Some(v), now).versions == v.versions,
        started(Some(v), now).global_version == v.global_version,
{
    let w = started(Some(v), now);
    match d {
        Dataset::ZoneRouters(zone) => {
            assert(routers_in(w.routers, zone) =~= routers_in(v.routers, zone));
        },
        Dataset::ZoneShards(zone) => {
            lemma_same_mapping(v.bridges, w.bridges, zone);
        },
        Dataset::ShardNodes(shard) => {
            assert(nodes_in(w.nodes, shard) =~= nodes_in(v.nodes, shard));
        },
        _ => {},
    }
}

/// A restart keeps the records finitely many and every shard handing out
/// exactly what it owns.
pub proof fn law_restart_keeps_the_records_sound(v: RegistryView, now: u64)
    requires
        finitely_many(v),
        normalized(v),
    ensures
        finitely_many(started(Some(v), now)),
        normalized(started(Some(v), now)),
{
    let w = started(Some(v), now);
    assert(w.routers.dom() =~= v.routers.dom());
    assert(w.bridges.dom() =~= v.bridges.dom());
    assert(w.nodes.dom() =~= v.nodes.dom());
}

/// After a restart no component is removed before it had a whole timeout to
/// be heard of again.
pub proof fn law_restart_gives_everyone_a_timeout(v: RegistryView, restart: u64, now: u64, timeout: u64)
    requires
        now - restart <= timeout,
    ensures
        swept(started(Some(v), restart), now, timeout) == started(Some(v), restart),
{
    let w = started(Some(v), restart);
    assert(expired_routers(w, now, timeout) =~= Set::<Seq<char>>::empty());
    assert(expired_bridges(w, now, timeout) =~= Set::<Seq<char>>::empty());
    assert(expired_nodes(w, now, timeout) =~= Set::<Seq<char>>::empty());
    lemma_nothing_overdue(w, now, timeout);
}

// ----------------------------------------------------------------------------
// Persistence
// ----------------------------------------------------------------------------

/// What is not marked to be written down, no query can tell: a change that
/// leaves the state unmarked changes no answer and no version.
pub proof fn law_unmarked_changes_are_invisible(a: AppView, c: Change, d: Dataset)
    requires
        finitely_many(a.registry),
        room(a.registry, change_keys(a.registry, c)),
        !after(a, c).dirty,
    ensures
        content(after(a, c).registry, d) == content(a.registry, d),
        version(after(a, c).registry.versions, key_of(d)) == version(a.registry.versions, key_of(d)),
        after(a, c).registry.global_version == a.registry.global_version,
{
    let v = a.registry;
    lemma_changed(v, c);
    assert(change_keys(v, c).len() == 0);
    assert(!change_keys(v, c).contains(key_of(d)));
    lemma_kept_content(v, c, d);
    lemma_times_bound(change_keys(v, c), key_of(d));
}

/// A snapshot that was written leaves nothing to write.
pub proof fn law_successful_write_cleans(a: AppView)
    ensures
        !unsaved(write_ended(snapshot_taken(a), true)),
        write_ended(snapshot_taken(a), true).registry == a.registry,
{
}

/// A snapshot that could not be written leaves everything to write.
pub proof fn law_failed_write_is_not_forgotten(a: AppView)
    ensures
        unsaved(write_ended(snapshot_taken(a), false)),
        write_ended(snapshot_taken(a), false).registry == a.registry,
{
}

/// A visible change that comes in while a snapshot is being written is still
/// to be written, however the write ends.
pub proof fn law_change_during_a_write_is_not_hidden(a: AppView, c: Change, d: Dataset, written: bool)
    requires
        finitely_many(a.registry),
        room(a.registry, change_keys(a.registry, c)),
        content(changed(a.registry, c), d) != content(a.registry, d),
    ensures
        unsaved(write_ended(after(snapshot_taken(a), c), written)),
{
    let b = snapshot_taken(a);
    if !after(b, c).dirty {
        law_unmarked_changes_are_invisible(b, c, d);
    }
}

// ----------------------------------------------------------------------------
// Codecs
// ----------------------------------------------------------------------------

/// Feature lists that hold the same features but for their order and the case
/// of their letters have the same hash.
pub proof fn law_hash_ignores_order_and_case(a: Seq<Seq<char>>, b: Seq<Seq<char>>)
    requires
        lowered(a).to_set() == lowered(b).to_set(),
    ensures
        features_hash(lowered(a)) == features_hash(lowered(b)),
{
}

} // verus!
