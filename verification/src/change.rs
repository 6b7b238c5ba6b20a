//! The changes that the directory goes through.

use vstd::prelude::*;

use crate::model::{
    bridge_keys, bridge_registered, counts_fit, expired_bridges, expired_nodes, expired_routers,
    headroom, lemma_headroom, lemma_listed, lemma_listing, listing, node_keys, node_registered,
    room, router_keys, router_registered, segment_keys, segments_same, segments_updated,
    shards_updated, sweep_keys, swept, swept_bridge_zones, swept_node_shards,
    swept_router_zones, RegistryView,
};
use crate::names::lists;
use crate::segments::lemma_counts_fit;

verus! {

/// Something that happens to the directory.
pub enum Change {
    Router { id: Seq<char>, zone: Seq<char>, now: u64 },
    Bridge { id: Seq<char>, shard: Seq<char>, zone: Seq<char>, now: u64 },
    Node { id: Seq<char>, shard: Seq<char>, zone: Seq<char>, now: u64 },
    Segments { shard: Seq<char>, zone: Seq<char>, set: Set<Seq<char>> },
    Sweep { now: u64, timeout: u64 },
}

/// The directory after a change.
pub open spec fn changed(v: RegistryView, c: Change) -> RegistryView {
    match c {
        Change::Router { id, zone, now } => router_registered(v, id, zone, now),
        Change::Bridge { id, shard, zone, now } => bridge_registered(v, id, shard, zone, now),
        Change::Node { id, shard, zone, now } => node_registered(v, id, shard, zone, now),
        Change::Segments { shard, zone, set } => segments_updated(v, shard, zone, set),
        Change::Sweep { now, timeout } => swept(v, now, timeout),
    }
}

/// The datasets whose versions a change counts up.
pub open spec fn change_keys(v: RegistryView, c: Change) -> Seq<Seq<char>> {
    match c {
        Change::Router { id, zone, now } => router_keys(v, id, zone),
        Change::Bridge { id, shard, zone, now } => bridge_keys(v, id, shard, zone),
        Change::Node { id, shard, zone, now } => node_keys(v, id, shard),
        Change::Segments { shard, zone, set } => if segments_same(v, shard, zone, set) {
            Seq::empty()
        } else {
            segment_keys(v, shard, zone, set)
        },
        Change::Sweep { now, timeout } => sweep_keys(v, now, timeout),
    }
}

/// A change that no counter stands in the way of: no version and no count of
/// a segment's owners overflows.
pub open spec fn possible(v: RegistryView, c: Change) -> bool {
    &&& room(v, change_keys(v, c))
    &&& c matches Change::Segments { shard, zone, set } ==> segments_same(v, shard, zone, set) || counts_fit(
        shards_updated(v.shards, shard, zone, set),
    )
}

/// The records are finitely many.
pub open spec fn finitely_many(v: RegistryView) -> bool {
    &&& v.routers.dom().finite()
    &&& v.bridges.dom().finite()
    &&& v.nodes.dom().finite()
    &&& v.shards.dom().finite()
    &&& forall|shard: Seq<char>| #[trigger] v.shards.contains_key(shard) ==> v.shards[shard].set.finite()
}

/// A segment update names finitely many segments.
pub open spec fn finite_change(c: Change) -> bool {
    c matches Change::Segments { shard, zone, set } ==> set.finite()
}

/// Every counter is far enough from its end for any one change.
pub open spec fn roomy(v: RegistryView) -> bool {
    &&& headroom(v, 3 + v.routers.dom().len() + v.bridges.dom().len() + v.nodes.dom().len())
    &&& v.shards.dom().len() < u32::MAX
}

/// The places of a sweep can be listed, and are no more than the components.
pub proof fn lemma_swept_places(v: RegistryView, now: u64, timeout: u64)
    requires
        finitely_many(v),
    ensures
        lists(listing(swept_router_zones(v, now, timeout)), swept_router_zones(v, now, timeout)),
        lists(listing(swept_bridge_zones(v, now, timeout)), swept_bridge_zones(v, now, timeout)),
        lists(listing(swept_node_shards(v, now, timeout)), swept_node_shards(v, now, timeout)),
        sweep_keys(v, now, timeout).len() <= v.routers.dom().len() + v.bridges.dom().len() + v.nodes.dom().len(),
{
    let a = v.routers.dom().map(|id: Seq<char>| v.routers[id].zone);
    assert forall|zone: Seq<char>| swept_router_zones(v, now, timeout).contains(zone) implies a.contains(zone) by {
        let id = choose|id: Seq<char>|
            #[trigger] expired_routers(v, now, timeout).contains(id) && v.routers[id].zone == zone;
        assert(v.routers.dom().contains(id));
    }
    vstd::set_lib::lemma_map_size_bound(v.routers.dom(), a, |id: Seq<char>| v.routers[id].zone);
    vstd::set_lib::lemma_len_subset(swept_router_zones(v, now, timeout), a);
    lemma_listed(swept_router_zones(v, now, timeout));
    lemma_listing(listing(swept_router_zones(v, now, timeout)), swept_router_zones(v, now, timeout));
    let b = v.bridges.dom().map(|id: Seq<char>| v.bridges[id].zone);
    assert forall|zone: Seq<char>| swept_bridge_zones(v, now, timeout).contains(zone) implies b.contains(zone) by {
        let id = choose|id: Seq<char>|
            #[trigger] expired_bridges(v, now, timeout).contains(id) && v.bridges[id].zone == zone;
        assert(v.bridges.dom().contains(id));
    }
    vstd::set_lib::lemma_map_size_bound(v.bridges.dom(), b, |id: Seq<char>| v.bridges[id].zone);
    vstd::set_lib::lemma_len_subset(swept_bridge_zones(v, now, timeout), b);
    lemma_listed(swept_bridge_zones(v, now, timeout));
    lemma_listing(listing(swept_bridge_zones(v, now, timeout)), swept_bridge_zones(v, now, timeout));
    let c = v.nodes.dom().map(|id: Seq<char>| v.nodes[id].shard);
    assert forall|shard: Seq<char>| swept_node_shards(v, now, timeout).contains(shard) implies c.contains(shard) by {
        let id = choose|id: Seq<char>|
            #[trigger] expired_nodes(v, now, timeout).contains(id) && v.nodes[id].shard == shard;
        assert(v.nodes.dom().contains(id));
    }
    vstd::set_lib::lemma_map_size_bound(v.nodes.dom(), c, |id: Seq<char>| v.nodes[id].shard);
    vstd::set_lib::lemma_len_subset(swept_node_shards(v, now, timeout), c);
    lemma_listed(swept_node_shards(v, now, timeout));
    lemma_listing(listing(swept_node_shards(v, now, timeout)), swept_node_shards(v, now, timeout));
}

/// A directory with room admits every change.
pub proof fn law_room_admits_every_change(v: RegistryView, c: Change)
    requires
        finitely_many(v),
        roomy(v),
    ensures
        possible(v, c),
{
    let n = 3 + v.routers.dom().len() + v.bridges.dom().len() + v.nodes.dom().len();
    match c {
        Change::Segments { shard, zone, set } => {
            lemma_counts_fit(shards_updated(v.shards, shard, zone, set));
        },
        Change::Sweep { now, timeout } => {
            lemma_swept_places(v, now, timeout);
        },
        _ => {},
    }
    assert(change_keys(v, c).len() <= n);
    lemma_headroom(v, n, change_keys(v, c));
}

} // verus!
