//! Heartbeat expiry.

use vstd::prelude::*;

use crate::index::{
    entry_lists, lemma_kept, mapping_at, nodes_indexed, bridges_indexed, rebuild_shard_nodes,
    rebuild_zone_routers, rebuild_zone_shards, routers_indexed, zone_bridges_indexed, AppData,
    Indexes,
};
use crate::keys::{shard_nodes_key, zone_routers_key, zone_shards_key};
use crate::model::{
    bridges_in, bump_each, expired, expired_bridges, expired_nodes, expired_routers,
    lemma_bump_append, lemma_bump_each, lemma_listing, lemma_room_prefix, nodes_in, room,
    routers_in, shard_nodes_keys, shards_in, sweep_keys, swept, swept_bridge_zones,
    swept_node_shards, swept_router_zones, without_expired, zone_routers_keys, zone_shards_keys,
    BridgeView, NodeView, RegistryView, RouterView,
};
use crate::names::{lemma_prefix_set, lists, NameList};
use crate::records::{BridgeInfo, Components, NodeInfo, RouterInfo};
use crate::registry::bump_version;
use crate::table::NameMap;

verus! {

/// A registration that heartbeats keep alive.
pub trait Registration: DeepView + Sized {
    /// When it was last heard of.
    spec fn heartbeat(v: Self::V) -> u64;

    /// The zone or shard whose dataset lists it.
    spec fn place(v: Self::V) -> Seq<char>;

    /// The same, heard of at `now`.
    spec fn seen(v: Self::V, now: u64) -> Self::V;

    fn last_seen(&self) -> (r: u64)
        ensures
            r == Self::heartbeat(self.deep_view()),
    ;

    fn place_id(&self) -> (r: &String)
        ensures
            r@ == Self::place(self.deep_view()),
    ;

    fn seen_at(&self, now: u64) -> (r: Self)
        ensures
            r.deep_view() == Self::seen(self.deep_view(), now),
    ;
}

impl Registration for RouterInfo {
    open spec fn heartbeat(v: RouterView) -> u64 {
        v.last_seen
    }

    open spec fn place(v: RouterView) -> Seq<char> {
        v.zone
    }

    open spec fn seen(v: RouterView, now: u64) -> RouterView {
        RouterView { last_seen: now, ..v }
    }

    fn last_seen(&self) -> (r: u64) {
        self.last_seen_ms
    }

    fn place_id(&self) -> (r: &String) {
        &self.zone_id
    }

    fn seen_at(&self, now: u64) -> (r: Self) {
        RouterInfo { zone_id: self.zone_id.clone(), last_seen_ms: now }
    }
}

impl Registration for BridgeInfo {
    open spec fn heartbeat(v: BridgeView) -> u64 {
        v.last_seen
    }

    open spec fn place(v: BridgeView) -> Seq<char> {
        v.zone
    }

    open spec fn seen(v: BridgeView, now: u64) -> BridgeView {
        BridgeView { last_seen: now, ..v }
    }

    fn last_seen(&self) -> (r: u64) {
        self.last_seen_ms
    }

    fn place_id(&self) -> (r: &String) {
        &self.zone_id
    }

    fn seen_at(&self, now: u64) -> (r: Self) {
        BridgeInfo { shard_id: self.shard_id.clone(), zone_id: self.zone_id.clone(), last_seen_ms: now }
    }
}

impl Registration for NodeInfo {
    open spec fn heartbeat(v: NodeView) -> u64 {
        v.last_seen
    }

    open spec fn place(v: NodeView) -> Seq<char> {
        v.shard
    }

    open spec fn seen(v: NodeView, now: u64) -> NodeView {
        NodeView { last_seen: now, ..v }
    }

    fn last_seen(&self) -> (r: u64) {
        self.last_seen_ms
    }

    fn place_id(&self) -> (r: &String) {
        &self.shard_id
    }

    fn seen_at(&self, now: u64) -> (r: Self) {
        NodeInfo { shard_id: self.shard_id.clone(), zone_id: self.zone_id.clone(), last_seen_ms: now }
    }
}

/// The registrations whose heartbeat is overdue.
pub open spec fn overdue<R: Registration>(m: Map<Seq<char>, R::V>, now: u64, timeout: u64) -> Set<Seq<char>> {
    Set::new(|id: Seq<char>| m.contains_key(id) && expired(R::heartbeat(m[id]), now, timeout))
}

/// Where the registrations `ids` are listed.
pub open spec fn places<R: Registration>(m: Map<Seq<char>, R::V>, ids: Set<Seq<char>>) -> Set<Seq<char>> {
    Set::new(|place: Seq<char>| exists|id: Seq<char>| #[trigger] ids.contains(id) && R::place(m[id]) == place)
}

/// Takes out the registrations whose heartbeat is overdue; gives their number
/// and the places where they were listed.
fn take_expired<R: Registration>(registrations: &mut NameMap<R>, now: u64, timeout_ms: u64) -> (r: (usize, NameList))
    ensures
        final(registrations)@ == old(registrations)@.remove_keys(overdue::<R>(old(registrations)@, now, timeout_ms)),
        r.0 == overdue::<R>(old(registrations)@, now, timeout_ms).len(),
        lists(r.1@, places::<R>(old(registrations)@, overdue::<R>(old(registrations)@, now, timeout_ms))),
{
    let ghost m = registrations@;
    let ghost late = overdue::<R>(m, now, timeout_ms);
    let mut ids = NameList::new();
    let mut listed = NameList::new();
    let n: usize = registrations.len();
    let ghost q = registrations.key_seq();
    proof {
        assert(late.intersect(q.take(0).to_set()) =~= Set::<Seq<char>>::empty());
        assert(places::<R>(m, late.intersect(q.take(0).to_set())) =~= Set::<Seq<char>>::empty());
    }
    for i in 0..n
        invariant
            n == q.len(),
            q == registrations.key_seq(),
            m == registrations@,
            *registrations == *old(registrations),
            late == overdue::<R>(m, now, timeout_ms),
            lists(ids@, late.intersect(q.take(i as int).to_set())),
            lists(listed@, places::<R>(m, late.intersect(q.take(i as int).to_set()))),
    {
        let ghost before = late.intersect(q.take(i as int).to_set());
        let ghost after = late.intersect(q.take(i + 1).to_set());
        let info = registrations.value_at(i);
        let last: u64 = info.last_seen();
        proof {
            lemma_prefix_set(q, i as int);
        }
        if now > last && now - last > timeout_ms {
            assert(late.contains(q[i as int]));
            assert(before.insert(q[i as int]) =~= after);
            ids.insert(registrations.key_at(i).clone());
            listed.insert(info.place_id().clone());
            proof {
                let place = R::place(m[q[i as int]]);
                assert forall|p: Seq<char>| places::<R>(m, after).contains(p) <==> places::<R>(m, before).insert(
                    place,
                ).contains(p) by {
                    if p == place {
                        assert(after.contains(q[i as int]));
                    }
                    if places::<R>(m, before).contains(p) {
                        let id = choose|id: Seq<char>| #[trigger] before.contains(id) && R::place(m[id]) == p;
                        assert(after.contains(id));
                    }
                    if places::<R>(m, after).contains(p) && p != place {
                        let id = choose|id: Seq<char>| #[trigger] after.contains(id) && R::place(m[id]) == p;
                        assert(before.contains(id));
                    }
                }
                assert(places::<R>(m, after) =~= places::<R>(m, before).insert(place));
            }
        } else {
            assert(!late.contains(q[i as int]));
            assert(before =~= after);
        }
    }
    proof {
        assert(q.take(n as int) =~= q);
        assert(late.intersect(q.to_set()) =~= late);
        lemma_listing(ids@, late);
    }
    let count: usize = ids.len();
    assert(m.remove_keys(ids@.take(0).to_set()) =~= m);
    for j in 0..count
        invariant
            count == ids@.len(),
            registrations@ == m.remove_keys(ids@.take(j as int).to_set()),
    {
        proof {
            lemma_prefix_set(ids@, j as int);
        }
        registrations.remove(ids.at(j).as_str());
        assert(registrations@ =~= m.remove_keys(ids@.take(j + 1).to_set()));
    }
    assert(ids@.take(count as int) =~= ids@);
    (count, listed)
}

/// Rebuilds the router index of each zone and counts the change.
fn reindex_zone_routers(data: &mut AppData, zones: &NameList)
    requires
        room(old(data)@, zone_routers_keys(zones@)),
        forall|zone: Seq<char>|
            !zones@.contains(zone) ==> #[trigger] entry_lists(
                old(data).indexes.routers_by_zone@,
                zone,
                routers_in(old(data)@.routers, zone),
            ),
    ensures
        final(data)@ == bump_each(old(data)@, zone_routers_keys(zones@)),
        routers_indexed(final(data).indexes.routers_by_zone@, old(data)@.routers),
        *final(data) == (AppData {
            versions: final(data).versions,
            global_version: final(data).global_version,
            indexes: Indexes { routers_by_zone: final(data).indexes.routers_by_zone, ..old(data).indexes },
            ..*old(data)
        }),
{
    let ghost start = data@;
    let ghost keys = zone_routers_keys(zones@);
    let n: usize = zones.len();
    assert(keys.take(0) =~= Seq::<Seq<char>>::empty());
    assert(zones@.skip(0) =~= zones@);
    for i in 0..n
        invariant
            n == zones@.len(),
            keys == zone_routers_keys(zones@),
            room(start, keys),
            start == old(data)@,
            data@ == bump_each(start, keys.take(i as int)),
            forall|zone: Seq<char>|
                !zones@.skip(i as int).contains(zone) ==> #[trigger] entry_lists(
                    data.indexes.routers_by_zone@,
                    zone,
                    routers_in(start.routers, zone),
                ),
            *data == (AppData {
                versions: data.versions,
                global_version: data.global_version,
                indexes: Indexes { routers_by_zone: data.indexes.routers_by_zone, ..old(data).indexes },
                ..*old(data)
            }),
    {
        let ghost before = data.indexes.routers_by_zone@;
        let zone = zones.at(i);
        proof {
            lemma_room_prefix(start, keys, i as int);
        }
        rebuild_zone_routers(data, zone.as_str());
        bump_version(data, zone_routers_key(zone.as_str()));
        proof {
            let after = data.indexes.routers_by_zone@;
            assert forall|other: Seq<char>| !zones@.skip(i + 1).contains(other) implies #[trigger] entry_lists(
                after,
                other,
                routers_in(start.routers, other),
            ) by {
                if other != zone@ {
                    lemma_kept(before, after, zone@, other);
                    assert(!zones@.skip(i as int).contains(other)) by {
                        if zones@.skip(i as int).contains(other) {
                            let k = choose|k: int| 0 <= k < zones@.skip(i as int).len() && zones@.skip(i as int)[k] == other;
                            assert(zones@.skip(i + 1)[k - 1] == other);
                        }
                    }
                    assert(entry_lists(before, other, routers_in(start.routers, other)));
                }
            }
        }
    }
    assert(keys.take(n as int) =~= keys);
    assert forall|zone: Seq<char>| #[trigger] entry_lists(
        data.indexes.routers_by_zone@,
        zone,
        routers_in(start.routers, zone),
    ) by {
        assert(!zones@.skip(n as int).contains(zone));
    }
}

/// Rebuilds the bridge index of each zone and counts the change.
fn reindex_zone_shards(data: &mut AppData, zones: &NameList)
    requires
        room(old(data)@, zone_shards_keys(zones@)),
        forall|zone: Seq<char>|
            !zones@.contains(zone) ==> #[trigger] zone_bridges_indexed(old(data).indexes.bridges_by_zone_shard@, old(data)@.bridges, zone),
    ensures
        final(data)@ == bump_each(old(data)@, zone_shards_keys(zones@)),
        bridges_indexed(final(data).indexes.bridges_by_zone_shard@, old(data)@.bridges),
        *final(data) == (AppData {
            versions: final(data).versions,
            global_version: final(data).global_version,
            indexes: Indexes { bridges_by_zone_shard: final(data).indexes.bridges_by_zone_shard, ..old(data).indexes },
            ..*old(data)
        }),
{
    let ghost start = data@;
    let ghost keys = zone_shards_keys(zones@);
    let n: usize = zones.len();
    assert(keys.take(0) =~= Seq::<Seq<char>>::empty());
    assert(zones@.skip(0) =~= zones@);
    for i in 0..n
        invariant
            n == zones@.len(),
            keys == zone_shards_keys(zones@),
            room(start, keys),
            start == old(data)@,
            data@ == bump_each(start, keys.take(i as int)),
            forall|zone: Seq<char>|
                !zones@.skip(i as int).contains(zone) ==> #[trigger] zone_bridges_indexed(data.indexes.bridges_by_zone_shard@, start.bridges, zone),
            *data == (AppData {
                versions: data.versions,
                global_version: data.global_version,
                indexes: Indexes { bridges_by_zone_shard: data.indexes.bridges_by_zone_shard, ..old(data).indexes },
                ..*old(data)
            }),
    {
        let ghost before = data.indexes.bridges_by_zone_shard@;
        let zone = zones.at(i);
        proof {
            lemma_room_prefix(start, keys, i as int);
        }
        rebuild_zone_shards(data, zone.as_str());
        bump_version(data, zone_shards_key(zone.as_str()));
        proof {
            let after = data.indexes.bridges_by_zone_shard@;
            assert forall|other: Seq<char>| !zones@.skip(i + 1).contains(other) implies #[trigger] zone_bridges_indexed(after, start.bridges, other) by {
                if other != zone@ {
                    lemma_kept(before, after, zone@, other);
                    assert(!zones@.skip(i as int).contains(other)) by {
                        if zones@.skip(i as int).contains(other) {
                            let k = choose|k: int| 0 <= k < zones@.skip(i as int).len() && zones@.skip(i as int)[k] == other;
                            assert(zones@.skip(i + 1)[k - 1] == other);
                        }
                    }
                    assert(mapping_at(after, other) == mapping_at(before, other));
                    assert(zone_bridges_indexed(before, start.bridges, other));
                }
            }
        }
    }
    assert(keys.take(n as int) =~= keys);
    assert forall|zone: Seq<char>| #[trigger] zone_bridges_indexed(data.indexes.bridges_by_zone_shard@, start.bridges, zone) by {
        assert(!zones@.skip(n as int).contains(zone));
    }
}

/// Rebuilds the node index of each shard and counts the change.
fn reindex_shard_nodes(data: &mut AppData, shards: &NameList)
    requires
        room(old(data)@, shard_nodes_keys(shards@)),
        forall|shard: Seq<char>|
            !shards@.contains(shard) ==> #[trigger] entry_lists(
                old(data).indexes.nodes_by_shard@,
                shard,
                nodes_in(old(data)@.nodes, shard),
            ),
    ensures
        final(data)@ == bump_each(old(data)@, shard_nodes_keys(shards@)),
        nodes_indexed(final(data).indexes.nodes_by_shard@, old(data)@.nodes),
        *final(data) == (AppData {
            versions: final(data).versions,
            global_version: final(data).global_version,
            indexes: Indexes { nodes_by_shard: final(data).indexes.nodes_by_shard, ..old(data).indexes },
            ..*old(data)
        }),
{
    let ghost start = data@;
    let ghost keys = shard_nodes_keys(shards@);
    let n: usize = shards.len();
    assert(keys.take(0) =~= Seq::<Seq<char>>::empty());
    assert(shards@.skip(0) =~= shards@);
    for i in 0..n
        invariant
            n == shards@.len(),
            keys == shard_nodes_keys(shards@),
            room(start, keys),
            start == old(data)@,
            data@ == bump_each(start, keys.take(i as int)),
            forall|shard: Seq<char>|
                !shards@.skip(i as int).contains(shard) ==> #[trigger] entry_lists(
                    data.indexes.nodes_by_shard@,
                    shard,
                    nodes_in(start.nodes, shard),
                ),
            *data == (AppData {
                versions: data.versions,
                global_version: data.global_version,
                indexes: Indexes { nodes_by_shard: data.indexes.nodes_by_shard, ..old(data).indexes },
                ..*old(data)
            }),
    {
        let ghost before = data.indexes.nodes_by_shard@;
        let shard = shards.at(i);
        proof {
            lemma_room_prefix(start, keys, i as int);
        }
        rebuild_shard_nodes(data, shard.as_str());
        bump_version(data, shard_nodes_key(shard.as_str()));
        proof {
            let after = data.indexes.nodes_by_shard@;
            assert forall|other: Seq<char>| !shards@.skip(i + 1).contains(other) implies #[trigger] entry_lists(
                after,
                other,
                nodes_in(start.nodes, other),
            ) by {
                if other != shard@ {
                    lemma_kept(before, after, shard@, other);
                    assert(!shards@.skip(i as int).contains(other)) by {
                        if shards@.skip(i as int).contains(other) {
                            let k = choose|k: int| 0 <= k < shards@.skip(i as int).len() && shards@.skip(i as int)[k] == other;
                            assert(shards@.skip(i + 1)[k - 1] == other);
                        }
                    }
                    assert(entry_lists(before, other, nodes_in(start.nodes, other)));
                }
            }
        }
    }
    assert(keys.take(n as int) =~= keys);
    assert forall|shard: Seq<char>| #[trigger] entry_lists(
        data.indexes.nodes_by_shard@,
        shard,
        nodes_in(start.nodes, shard),
    ) by {
        assert(!shards@.skip(n as int).contains(shard));
    }
}

/// Where nothing is swept, the listings stay the same.
pub proof fn lemma_unswept(v: RegistryView, now: u64, timeout: u64)
    ensures
        forall|zone: Seq<char>|
            !swept_router_zones(v, now, timeout).contains(zone) ==> #[trigger] routers_in(
                without_expired(v, now, timeout).routers,
                zone,
            ) == routers_in(v.routers, zone),
        forall|zone: Seq<char>, shard: Seq<char>|
            !swept_bridge_zones(v, now, timeout).contains(zone) ==> #[trigger] bridges_in(
                without_expired(v, now, timeout).bridges,
                zone,
                shard,
            ) == bridges_in(v.bridges, zone, shard),
        forall|zone: Seq<char>|
            !swept_bridge_zones(v, now, timeout).contains(zone) ==> #[trigger] shards_in(
                without_expired(v, now, timeout).bridges,
                zone,
            ) == shards_in(v.bridges, zone),
        forall|shard: Seq<char>|
            !swept_node_shards(v, now, timeout).contains(shard) ==> #[trigger] nodes_in(
                without_expired(v, now, timeout).nodes,
                shard,
            ) == nodes_in(v.nodes, shard),
{
    let base = without_expired(v, now, timeout);
    assert forall|zone: Seq<char>| !swept_router_zones(v, now, timeout).contains(zone) implies #[trigger] routers_in(
        base.routers,
        zone,
    ) == routers_in(v.routers, zone) by {
        assert forall|id: Seq<char>| routers_in(v.routers, zone).contains(id) implies routers_in(
            base.routers,
            zone,
        ).contains(id) by {
            assert(!expired_routers(v, now, timeout).contains(id));
        }
        assert(routers_in(base.routers, zone) =~= routers_in(v.routers, zone));
    }
    assert forall|zone: Seq<char>, shard: Seq<char>| !swept_bridge_zones(v, now, timeout).contains(
        zone,
    ) implies #[trigger] bridges_in(base.bridges, zone, shard) == bridges_in(v.bridges, zone, shard) by {
        assert forall|id: Seq<char>| bridges_in(v.bridges, zone, shard).contains(id) implies bridges_in(
            base.bridges,
            zone,
            shard,
        ).contains(id) by {
            assert(!expired_bridges(v, now, timeout).contains(id));
        }
        assert(bridges_in(base.bridges, zone, shard) =~= bridges_in(v.bridges, zone, shard));
    }
    assert forall|zone: Seq<char>| !swept_bridge_zones(v, now, timeout).contains(zone) implies #[trigger] shards_in(
        base.bridges,
        zone,
    ) == shards_in(v.bridges, zone) by {
        assert forall|shard: Seq<char>|
            shards_in(base.bridges, zone).contains(shard) == shards_in(v.bridges, zone).contains(shard) by {
            assert(bridges_in(base.bridges, zone, shard) == bridges_in(v.bridges, zone, shard));
        }
        assert(shards_in(base.bridges, zone) =~= shards_in(v.bridges, zone));
    }
    assert forall|shard: Seq<char>| !swept_node_shards(v, now, timeout).contains(shard) implies #[trigger] nodes_in(
        base.nodes,
        shard,
    ) == nodes_in(v.nodes, shard) by {
        assert forall|id: Seq<char>| nodes_in(v.nodes, shard).contains(id) implies nodes_in(base.nodes, shard).contains(
            id,
        ) by {
            assert(!expired_nodes(v, now, timeout).contains(id));
        }
        assert(nodes_in(base.nodes, shard) =~= nodes_in(v.nodes, shard));
    }
}

/// How many components a sweep deregistered.
#[derive(Debug, Clone, Copy, PartialEq, Eq)]
pub struct Swept {
    pub routers: usize,
    pub bridges: usize,
    pub nodes: usize,
}

/// Removes the components whose heartbeat is overdue; tells how many there
/// were of each kind.
pub fn sweep_expired_components(data: &mut AppData, now: u64, timeout_ms: u64) -> (r: Swept)
    requires
        old(data).well_formed(),
        room(old(data)@, sweep_keys(old(data)@, now, timeout_ms)),
    ensures
        final(data).well_formed(),
        final(data)@ == swept(old(data)@, now, timeout_ms),
        r.routers == expired_routers(old(data)@, now, timeout_ms).len(),
        r.bridges == expired_bridges(old(data)@, now, timeout_ms).len(),
        r.nodes == expired_nodes(old(data)@, now, timeout_ms).len(),
{
    let ghost start = data@;
    let ghost base = without_expired(start, now, timeout_ms);
    let (routers, router_zones) = take_expired(&mut data.components.routers, now, timeout_ms);
    let (bridges, bridge_zones) = take_expired(&mut data.components.bridges, now, timeout_ms);
    let (nodes, node_shards) = take_expired(&mut data.components.nodes, now, timeout_ms);
    let ghost late_routers = expired_routers(start, now, timeout_ms);
    let ghost late_bridges = expired_bridges(start, now, timeout_ms);
    let ghost late_nodes = expired_nodes(start, now, timeout_ms);
    let ghost a = zone_routers_keys(router_zones@);
    let ghost b = zone_shards_keys(bridge_zones@);
    let ghost c = shard_nodes_keys(node_shards@);
    proof {
        assert(overdue::<RouterInfo>(start.routers, now, timeout_ms) =~= late_routers);
        assert(overdue::<BridgeInfo>(start.bridges, now, timeout_ms) =~= late_bridges);
        assert(overdue::<NodeInfo>(start.nodes, now, timeout_ms) =~= late_nodes);
        assert(places::<RouterInfo>(start.routers, late_routers) =~= swept_router_zones(start, now, timeout_ms));
        assert(places::<BridgeInfo>(start.bridges, late_bridges) =~= swept_bridge_zones(start, now, timeout_ms));
        assert(places::<NodeInfo>(start.nodes, late_nodes) =~= swept_node_shards(start, now, timeout_ms));
        lemma_listing(router_zones@, swept_router_zones(start, now, timeout_ms));
        lemma_listing(bridge_zones@, swept_bridge_zones(start, now, timeout_ms));
        lemma_listing(node_shards@, swept_node_shards(start, now, timeout_ms));
        assert(data@ =~= base);
        assert(sweep_keys(start, now, timeout_ms) == a + b + c);
        assert(room(base, a + b + c));
        lemma_bump_append(base, a + b, c);
        lemma_bump_append(base, a, b);
        lemma_bump_each(base, a);
        lemma_bump_each(bump_each(base, a), b);
        lemma_unswept(start, now, timeout_ms);
        let index = data.indexes.bridges_by_zone_shard@;
        assert forall|zone: Seq<char>| !bridge_zones@.contains(zone) implies #[trigger] zone_bridges_indexed(
            index,
            base.bridges,
            zone,
        ) by {
            assert(zone_bridges_indexed(index, start.bridges, zone));
            assert(!swept_bridge_zones(start, now, timeout_ms).contains(zone));
            assert(shards_in(base.bridges, zone) == shards_in(start.bridges, zone));
            assert forall|shard: Seq<char>| #[trigger] entry_lists(
                mapping_at(index, zone),
                shard,
                bridges_in(base.bridges, zone, shard),
            ) by {
                assert(entry_lists(mapping_at(index, zone), shard, bridges_in(start.bridges, zone, shard)));
            }
        }
    }
    reindex_zone_routers(data, &router_zones);
    reindex_zone_shards(data, &bridge_zones);
    reindex_shard_nodes(data, &node_shards);
    Swept { routers, bridges, nodes }
}

/// Marks every registration as heard of at `now`.
fn refresh_all<R: Registration>(registrations: &mut NameMap<R>, now: u64)
    ensures
        final(registrations)@ == old(registrations)@.map_values(|v: R::V| R::seen(v, now)),
{
    let ghost m = registrations@;
    let ghost q = registrations.key_seq();
    let n: usize = registrations.len();
    let mut fresh: NameMap<R> = NameMap::new();
    for i in 0..n
        invariant
            n == q.len(),
            q == registrations.key_seq(),
            m == registrations@,
            *registrations == *old(registrations),
            fresh@.dom() == q.take(i as int).to_set(),
            forall|id: Seq<char>| #[trigger] fresh@.contains_key(id) ==> fresh@[id] == R::seen(m[id], now),
    {
        proof {
            lemma_prefix_set(q, i as int);
        }
        fresh.insert(registrations.key_at(i).clone(), registrations.value_at(i).seen_at(now));
        assert(fresh@.dom() =~= q.take(i + 1).to_set());
    }
    assert(q.take(n as int) =~= q);
    assert(fresh@ =~= m.map_values(|v: R::V| R::seen(v, now)));
    *registrations = fresh;
}

/// Marks every loaded component as heard of at `now`: the age of a heartbeat
/// that was written down before a restart says nothing.
pub fn reset_heartbeat_times(components: &mut Components, now: u64)
    ensures
        final(components).routers@ == old(components).routers@.map_values(
            |r: RouterView| RouterView { last_seen: now, ..r },
        ),
        final(components).bridges@ == old(components).bridges@.map_values(
            |b: BridgeView| BridgeView { last_seen: now, ..b },
        ),
        final(components).nodes@ == old(components).nodes@.map_values(|n: NodeView| NodeView { last_seen: now, ..n }),
{
    refresh_all(&mut components.routers, now);
    refresh_all(&mut components.bridges, now);
    refresh_all(&mut components.nodes, now);
    assert(components.routers@ =~= old(components).routers@.map_values(
        |r: RouterView| RouterView { last_seen: now, ..r },
    ));
    assert(components.bridges@ =~= old(components).bridges@.map_values(
        |b: BridgeView| BridgeView { last_seen: now, ..b },
    ));
    assert(components.nodes@ =~= old(components).nodes@.map_values(|n: NodeView| NodeView { last_seen: now, ..n }));
}

} // verus!
