//! What the directory holds, and what each operation makes of it, in
//! mathematical terms.

use vstd::prelude::*;

use crate::keys::{key_of, Dataset};
use crate::names::{
    ascending, law_listing_is_sorted_and_complete, lemma_ascending_distinct,
    lemma_insert_ascending, lemma_listing_unique, lists,
};
use crate::order::{before, lemma_before_total, lemma_before_transitive};

verus! {

/// A router's registration.
#[verifier::ext_equal]
pub struct RouterView {
    pub zone: Seq<char>,
    pub last_seen: u64,
}

/// A bridge's registration.
#[verifier::ext_equal]
pub struct BridgeView {
    pub shard: Seq<char>,
    pub zone: Seq<char>,
    pub last_seen: u64,
}

/// A node's registration.
#[verifier::ext_equal]
pub struct NodeView {
    pub shard: Seq<char>,
    pub zone: Seq<char>,
    pub last_seen: u64,
}

/// A shard's segment ownership: the owned set, and the list that is handed out.
#[verifier::ext_equal]
pub struct ShardView {
    pub zone: Seq<char>,
    pub set: Set<Seq<char>>,
    pub sorted: Seq<Seq<char>>,
}

/// The authoritative records and the dataset versions.
#[verifier::ext_equal]
pub struct RegistryView {
    pub routers: Map<Seq<char>, RouterView>,
    pub bridges: Map<Seq<char>, BridgeView>,
    pub nodes: Map<Seq<char>, NodeView>,
    pub shards: Map<Seq<char>, ShardView>,
    pub versions: Map<Seq<char>, u64>,
    pub global_version: u64,
}

/// The directory that holds nothing.
pub open spec fn empty_registry() -> RegistryView {
    RegistryView {
        routers: Map::empty(),
        bridges: Map::empty(),
        nodes: Map::empty(),
        shards: Map::empty(),
        versions: Map::empty(),
        global_version: 0,
    }
}

// ----------------------------------------------------------------------------
// What the datasets hold
// ----------------------------------------------------------------------------

/// The listing of a set of names.
pub open spec fn listing(s: Set<Seq<char>>) -> Seq<Seq<char>> {
    choose|q: Seq<Seq<char>>| lists(q, s)
}

/// A list that lists a set is the listing of that set.
pub proof fn lemma_listing(q: Seq<Seq<char>>, s: Set<Seq<char>>)
    requires
        lists(q, s),
    ensures
        q == listing(s),
        lists(listing(s), s),
        q.len() == s.len(),
        s.finite(),
{
    lemma_listing_unique(q, listing(s), s);
    lemma_ascending_distinct(q);
    q.unique_seq_to_set();
}

/// An absent name has a place in an ascending list.
proof fn lemma_place(q: Seq<Seq<char>>, n: Seq<char>) -> (pos: int)
    requires
        ascending(q),
        !q.contains(n),
    ensures
        0 <= pos <= q.len(),
        forall|i: int| 0 <= i < pos ==> before(#[trigger] q[i], n),
        forall|i: int| pos <= i < q.len() ==> before(n, #[trigger] q[i]),
    decreases q.len(),
{
    if q.len() == 0 {
        0
    } else {
        let init = q.drop_last();
        assert(q.contains(q.last()));
        lemma_before_total(q.last(), n);
        assert forall|i: int| 0 <= i < init.len() implies init[i] != n by {
            assert(q[i] == init[i]);
            assert(q.contains(q[i]));
        }
        if before(q.last(), n) {
            assert forall|i: int| 0 <= i < q.len() implies before(#[trigger] q[i], n) by {
                if i < q.len() - 1 {
                    lemma_before_transitive(q[i], q.last(), n);
                }
            }
            q.len() as int
        } else {
            let pos = lemma_place(init, n);
            assert forall|i: int| 0 <= i < pos implies before(#[trigger] q[i], n) by {
                assert(init[i] == q[i]);
            }
            assert forall|i: int| pos <= i < q.len() implies before(n, #[trigger] q[i]) by {
                if i < q.len() - 1 {
                    assert(init[i] == q[i]);
                }
            }
            pos
        }
    }
}

/// Every finite set of names has a listing.
pub proof fn lemma_listed(s: Set<Seq<char>>)
    requires
        s.finite(),
    ensures
        lists(listing(s), s),
    decreases s.len(),
{
    if s.len() == 0 {
        s.lemma_len0_is_empty();
        assert(Seq::<Seq<char>>::empty().to_set() =~= s);
        lemma_listing(Seq::empty(), s);
    } else {
        let n = s.choose();
        let rest = s.remove(n);
        lemma_listed(rest);
        let q = listing(rest);
        assert(q.to_set().contains(n) == q.contains(n));
        let pos = lemma_place(q, n);
        lemma_insert_ascending(q, pos, n);
        assert(rest.insert(n) =~= s);
        lemma_listing(q.insert(pos, n), s);
    }
}

/// The listing of a finite set of names holds these names and no other, each
/// before all that follow it.
pub proof fn law_every_finite_set_is_listed(s: Set<Seq<char>>)
    requires
        s.finite(),
    ensures
        forall|i: int, j: int|
            0 <= i < j < listing(s).len() ==> before(#[trigger] listing(s)[i], #[trigger] listing(s)[j]),
        forall|n: Seq<char>| #[trigger] listing(s).contains(n) <==> s.contains(n),
        listing(s).len() == s.len(),
{
    lemma_listed(s);
    lemma_listing(listing(s), s);
    law_listing_is_sorted_and_complete(listing(s), s);
}

/// The routers of a zone.
pub open spec fn routers_in(routers: Map<Seq<char>, RouterView>, zone: Seq<char>) -> Set<Seq<char>> {
    Set::new(|id: Seq<char>| routers.contains_key(id) && routers[id].zone == zone)
}

/// The bridges that serve a shard in a zone.
pub open spec fn bridges_in(bridges: Map<Seq<char>, BridgeView>, zone: Seq<char>, shard: Seq<char>) -> Set<Seq<char>> {
    Set::new(|id: Seq<char>| bridges.contains_key(id) && bridges[id].zone == zone && bridges[id].shard == shard)
}

/// The shards that some bridge serves in a zone.
pub open spec fn shards_in(bridges: Map<Seq<char>, BridgeView>, zone: Seq<char>) -> Set<Seq<char>> {
    Set::new(|shard: Seq<char>| exists|id: Seq<char>| bridges_in(bridges, zone, shard).contains(id))
}

/// The nodes of a shard.
pub open spec fn nodes_in(nodes: Map<Seq<char>, NodeView>, shard: Seq<char>) -> Set<Seq<char>> {
    Set::new(|id: Seq<char>| nodes.contains_key(id) && nodes[id].shard == shard)
}

/// The shards of a zone that own a segment.
pub open spec fn owners(shards: Map<Seq<char>, ShardView>, zone: Seq<char>, segment: Seq<char>) -> Set<Seq<char>> {
    Set::new(|shard: Seq<char>| shards.contains_key(shard) && shards[shard].zone == zone && shards[shard].set.contains(segment))
}

/// The segments that some shard of a zone owns.
pub open spec fn segments_in(shards: Map<Seq<char>, ShardView>, zone: Seq<char>) -> Set<Seq<char>> {
    Set::new(|segment: Seq<char>| exists|shard: Seq<char>| owners(shards, zone, segment).contains(shard))
}

/// The zones that have a router.
pub open spec fn router_zones(routers: Map<Seq<char>, RouterView>) -> Set<Seq<char>> {
    Set::new(|zone: Seq<char>| exists|id: Seq<char>| routers_in(routers, zone).contains(id))
}

/// A zone's shards, each with the bridges that serve it there.
pub open spec fn shard_mapping(bridges: Map<Seq<char>, BridgeView>, zone: Seq<char>) -> Map<Seq<char>, Seq<Seq<char>>> {
    Map::new(
        |shard: Seq<char>| shards_in(bridges, zone).contains(shard),
        |shard: Seq<char>| listing(bridges_in(bridges, zone, shard)),
    )
}

/// The owners of every segment can be counted with 32 bits.
pub open spec fn counts_fit(shards: Map<Seq<char>, ShardView>) -> bool {
    forall|zone: Seq<char>, segment: Seq<char>| (#[trigger] owners(shards, zone, segment)).len() <= u32::MAX
}

// ----------------------------------------------------------------------------
// Versions
// ----------------------------------------------------------------------------

/// The version under a key; zero where none was ever kept.
pub open spec fn version(versions: Map<Seq<char>, u64>, key: Seq<char>) -> u64 {
    if versions.contains_key(key) {
        versions[key]
    } else {
        0
    }
}

/// One more under `key`, and one more overall.
pub open spec fn bump(v: RegistryView, key: Seq<char>) -> RegistryView {
    RegistryView {
        versions: v.versions.insert(key, (version(v.versions, key) + 1) as u64),
        global_version: (v.global_version + 1) as u64,
        ..v
    }
}

/// One more under each of `keys`, as often as it stands there.
pub open spec fn bump_each(v: RegistryView, keys: Seq<Seq<char>>) -> RegistryView
    decreases keys.len(),
{
    if keys.len() == 0 {
        v
    } else {
        bump(bump_each(v, keys.drop_last()), keys.last())
    }
}

/// How often `key` stands in `keys`.
pub open spec fn times(keys: Seq<Seq<char>>, key: Seq<char>) -> nat
    decreases keys.len(),
{
    if keys.len() == 0 {
        0
    } else {
        times(keys.drop_last(), key) + if keys.last() == key {
            1nat
        } else {
            0nat
        }
    }
}

/// No version overflows when each of `keys` is bumped.
pub open spec fn room(v: RegistryView, keys: Seq<Seq<char>>) -> bool {
    &&& v.global_version + keys.len() <= u64::MAX
    &&& forall|key: Seq<char>| version(v.versions, key) + #[trigger] times(keys, key) <= u64::MAX
}

/// No version overflows under any `n` bumps.
pub open spec fn headroom(v: RegistryView, n: nat) -> bool {
    &&& v.global_version + n <= u64::MAX
    &&& forall|key: Seq<char>| #[trigger] v.versions.contains_key(key) ==> v.versions[key] + n <= u64::MAX
}

/// A key stands in a list at most as often as the list is long.
pub proof fn lemma_times_bound(keys: Seq<Seq<char>>, key: Seq<char>)
    ensures
        times(keys, key) <= keys.len(),
        times(keys, key) > 0 <==> keys.contains(key),
    decreases keys.len(),
{
    if keys.len() > 0 {
        lemma_times_bound(keys.drop_last(), key);
        if keys.drop_last().contains(key) {
            let i = choose|i: int| 0 <= i < keys.drop_last().len() && keys.drop_last()[i] == key;
            assert(keys[i] == key);
        }
        if keys.contains(key) && keys.last() != key {
            let i = choose|i: int| 0 <= i < keys.len() && keys[i] == key;
            assert(keys.drop_last()[i] == key);
        }
    }
}

/// Headroom for `n` bumps is room for any list of at most `n` keys.
pub proof fn lemma_headroom(v: RegistryView, n: nat, keys: Seq<Seq<char>>)
    requires
        headroom(v, n),
        keys.len() <= n,
    ensures
        room(v, keys),
{
    assert forall|key: Seq<char>| version(v.versions, key) + #[trigger] times(keys, key) <= u64::MAX by {
        lemma_times_bound(keys, key);
    }
}

/// What bumping does: every version grows by the number of times that its key
/// stands in the list, the overall version by the length of the list, and
/// nothing else changes.
pub proof fn lemma_bump_each(v: RegistryView, keys: Seq<Seq<char>>)
    requires
        room(v, keys),
    ensures
        bump_each(v, keys).global_version == v.global_version + keys.len(),
        forall|key: Seq<char>|
            #![trigger version(bump_each(v, keys).versions, key)]
            version(bump_each(v, keys).versions, key) == version(v.versions, key) + times(keys, key),
        forall|key: Seq<char>|
            #![trigger bump_each(v, keys).versions.contains_key(key)]
            bump_each(v, keys).versions.contains_key(key) <==> v.versions.contains_key(key) || keys.contains(key),
        bump_each(v, keys) == (RegistryView {
            versions: bump_each(v, keys).versions,
            global_version: bump_each(v, keys).global_version,
            ..v
        }),
    decreases keys.len(),
{
    if keys.len() > 0 {
        let init = keys.drop_last();
        let last = keys.last();
        assert(room(v, init)) by {
            assert forall|key: Seq<char>| version(v.versions, key) + #[trigger] times(init, key) <= u64::MAX by {
                assert(version(v.versions, key) + times(keys, key) <= u64::MAX);
            }
        }
        lemma_bump_each(v, init);
        let mid = bump_each(v, init);
        assert(version(v.versions, last) + times(keys, last) <= u64::MAX);
        assert(version(mid.versions, last) + 1 <= u64::MAX);
        assert forall|key: Seq<char>| version(bump_each(v, keys).versions, key) == version(v.versions, key) + times(keys, key) by {
            assert(version(mid.versions, key) == version(v.versions, key) + times(init, key));
        }
        assert forall|key: Seq<char>|
            bump_each(v, keys).versions.contains_key(key) <==> v.versions.contains_key(key) || keys.contains(key) by {
            assert(mid.versions.contains_key(key) <==> v.versions.contains_key(key) || init.contains(key));
            assert(keys =~= init.push(last));
            if init.contains(key) {
                let i = choose|i: int| 0 <= i < init.len() && init[i] == key;
                assert(keys[i] == key);
            }
            if keys.contains(key) && key != last {
                let i = choose|i: int| 0 <= i < keys.len() && keys[i] == key;
                assert(init[i] == key);
            }
            assert(keys[keys.len() - 1] == last);
        }
    } else {
        assert forall|key: Seq<char>| times(keys, key) == 0 by {}
    }
}

/// Room for a list is room for its beginning, and then for the next key.
pub proof fn lemma_room_prefix(v: RegistryView, keys: Seq<Seq<char>>, n: int)
    requires
        room(v, keys),
        0 <= n < keys.len(),
    ensures
        room(v, keys.take(n)),
        version(bump_each(v, keys.take(n)).versions, keys[n]) < u64::MAX,
        bump_each(v, keys.take(n)).global_version < u64::MAX,
        bump(bump_each(v, keys.take(n)), keys[n]) == bump_each(v, keys.take(n + 1)),
    decreases keys.len() - n,
{
    assert(keys.take(n + 1).drop_last() =~= keys.take(n));
    if n + 1 < keys.len() {
        lemma_room_prefix(v, keys, n + 1);
    } else {
        assert(keys.take(n + 1) =~= keys);
    }
    assert(room(v, keys.take(n + 1)));
    let part = keys.take(n + 1);
    assert(room(v, keys.take(n))) by {
        assert forall|key: Seq<char>| version(v.versions, key) + #[trigger] times(keys.take(n), key) <= u64::MAX by {
            assert(version(v.versions, key) + times(part, key) <= u64::MAX);
        }
    }
    lemma_bump_each(v, keys.take(n));
    assert(version(v.versions, keys[n]) + times(part, keys[n]) <= u64::MAX);
    assert(version(bump_each(v, keys.take(n)).versions, keys[n]) == version(v.versions, keys[n]) + times(keys.take(n), keys[n]));
}

/// A key stands in two lists together as often as in both.
pub proof fn lemma_times_append(a: Seq<Seq<char>>, b: Seq<Seq<char>>, key: Seq<char>)
    ensures
        times(a + b, key) == times(a, key) + times(b, key),
    decreases b.len(),
{
    if b.len() == 0 {
        assert(a + b =~= a);
    } else {
        assert((a + b).drop_last() =~= a + b.drop_last());
        lemma_times_append(a, b.drop_last(), key);
    }
}

/// Bumping two lists together is bumping one after the other.
pub proof fn lemma_bump_append(v: RegistryView, a: Seq<Seq<char>>, b: Seq<Seq<char>>)
    requires
        room(v, a + b),
    ensures
        room(v, a),
        room(bump_each(v, a), b),
        bump_each(v, a + b) == bump_each(bump_each(v, a), b),
    decreases b.len(),
{
    assert forall|key: Seq<char>| version(v.versions, key) + #[trigger] times(a, key) <= u64::MAX by {
        lemma_times_append(a, b, key);
        assert(version(v.versions, key) + times(a + b, key) <= u64::MAX);
    }
    lemma_bump_each(v, a);
    let mid = bump_each(v, a);
    assert forall|key: Seq<char>| version(mid.versions, key) + #[trigger] times(b, key) <= u64::MAX by {
        lemma_times_append(a, b, key);
        assert(version(v.versions, key) + times(a + b, key) <= u64::MAX);
    }
    if b.len() == 0 {
        assert(a + b =~= a);
    } else {
        let all = a + b;
        assert(all.drop_last() =~= a + b.drop_last());
        assert forall|key: Seq<char>| version(v.versions, key) + #[trigger] times(all.drop_last(), key) <= u64::MAX by {
            assert(version(v.versions, key) + times(all, key) <= u64::MAX);
        }
        lemma_bump_append(v, a, b.drop_last());
    }
}

// ----------------------------------------------------------------------------
// Registration
// ----------------------------------------------------------------------------

/// The datasets that a router registration changes.
pub open spec fn router_keys(v: RegistryView, id: Seq<char>, zone: Seq<char>) -> Seq<Seq<char>> {
    if !v.routers.contains_key(id) {
        seq![key_of(Dataset::ZoneRouters(zone))]
    } else if v.routers[id].zone != zone {
        seq![key_of(Dataset::ZoneRouters(v.routers[id].zone)), key_of(Dataset::ZoneRouters(zone))]
    } else {
        seq![]
    }
}

/// The directory after a router registers.
pub open spec fn router_registered(v: RegistryView, id: Seq<char>, zone: Seq<char>, now: u64) -> RegistryView {
    bump_each(
        RegistryView { routers: v.routers.insert(id, RouterView { zone, last_seen: now }), ..v },
        router_keys(v, id, zone),
    )
}

/// The datasets that a bridge registration changes. A bridge that changes its
/// shard within one zone changes that zone's mapping twice.
pub open spec fn bridge_keys(v: RegistryView, id: Seq<char>, shard: Seq<char>, zone: Seq<char>) -> Seq<Seq<char>> {
    if !v.bridges.contains_key(id) {
        seq![key_of(Dataset::ZoneShards(zone))]
    } else if v.bridges[id].shard != shard || v.bridges[id].zone != zone {
        seq![key_of(Dataset::ZoneShards(v.bridges[id].zone)), key_of(Dataset::ZoneShards(zone))]
    } else {
        seq![]
    }
}

/// The directory after a bridge registers.
pub open spec fn bridge_registered(
    v: RegistryView,
    id: Seq<char>,
    shard: Seq<char>,
    zone: Seq<char>,
    now: u64,
) -> RegistryView {
    bump_each(
        RegistryView { bridges: v.bridges.insert(id, BridgeView { shard, zone, last_seen: now }), ..v },
        bridge_keys(v, id, shard, zone),
    )
}

/// The datasets that a node registration changes: a node's zone is in none.
pub open spec fn node_keys(v: RegistryView, id: Seq<char>, shard: Seq<char>) -> Seq<Seq<char>> {
    if !v.nodes.contains_key(id) {
        seq![key_of(Dataset::ShardNodes(shard))]
    } else if v.nodes[id].shard != shard {
        seq![key_of(Dataset::ShardNodes(v.nodes[id].shard)), key_of(Dataset::ShardNodes(shard))]
    } else {
        seq![]
    }
}

/// The directory after a node registers.
pub open spec fn node_registered(
    v: RegistryView,
    id: Seq<char>,
    shard: Seq<char>,
    zone: Seq<char>,
    now: u64,
) -> RegistryView {
    bump_each(
        RegistryView { nodes: v.nodes.insert(id, NodeView { shard, zone, last_seen: now }), ..v },
        node_keys(v, id, shard),
    )
}

// ----------------------------------------------------------------------------
// Segment ownership
// ----------------------------------------------------------------------------

/// The shard already owns exactly `set` in `zone`.
pub open spec fn segments_same(v: RegistryView, shard: Seq<char>, zone: Seq<char>, set: Set<Seq<char>>) -> bool {
    &&& v.shards.contains_key(shard)
    &&& v.shards[shard].zone == zone
    &&& v.shards[shard].set == set
}

/// The shard records after a segment update.
pub open spec fn shards_updated(
    shards: Map<Seq<char>, ShardView>,
    shard: Seq<char>,
    zone: Seq<char>,
    set: Set<Seq<char>>,
) -> Map<Seq<char>, ShardView> {
    shards.insert(shard, ShardView { zone, set, sorted: listing(set) })
}

/// A segment update changes what the shards of the zone `z` own together.
pub open spec fn zone_changes(
    v: RegistryView,
    shard: Seq<char>,
    zone: Seq<char>,
    set: Set<Seq<char>>,
    z: Seq<char>,
) -> bool {
    segments_in(v.shards, z) != segments_in(shards_updated(v.shards, shard, zone, set), z)
}

/// The datasets that a segment update changes: the shard's own, and those of
/// the zone that it leaves and of the zone that it is in, as far as the zone's
/// distinct segments change.
pub open spec fn segment_keys(v: RegistryView, shard: Seq<char>, zone: Seq<char>, set: Set<Seq<char>>) -> Seq<Seq<char>> {
    let own = seq![key_of(Dataset::ShardSegments(shard))];
    let left = if v.shards.contains_key(shard) && v.shards[shard].zone != zone && zone_changes(
        v,
        shard,
        zone,
        set,
        v.shards[shard].zone,
    ) {
        seq![key_of(Dataset::ZoneSegments(v.shards[shard].zone))]
    } else {
        seq![]
    };
    let entered = if zone_changes(v, shard, zone, set, zone) {
        seq![key_of(Dataset::ZoneSegments(zone))]
    } else {
        seq![]
    };
    own + left + entered
}

/// The directory after a shard publishes the segments `set`.
pub open spec fn segments_updated(v: RegistryView, shard: Seq<char>, zone: Seq<char>, set: Set<Seq<char>>) -> RegistryView {
    if segments_same(v, shard, zone, set) {
        v
    } else {
        bump_each(
            RegistryView { shards: shards_updated(v.shards, shard, zone, set), ..v },
            segment_keys(v, shard, zone, set),
        )
    }
}

// ----------------------------------------------------------------------------
// Heartbeats
// ----------------------------------------------------------------------------

/// More than `timeout` milliseconds have gone by since `last_seen`.
pub open spec fn expired(last_seen: u64, now: u64, timeout: u64) -> bool {
    now - last_seen > timeout
}

/// The routers whose heartbeat is overdue.
pub open spec fn expired_routers(v: RegistryView, now: u64, timeout: u64) -> Set<Seq<char>> {
    Set::new(|id: Seq<char>| v.routers.contains_key(id) && expired(v.routers[id].last_seen, now, timeout))
}

/// The bridges whose heartbeat is overdue.
pub open spec fn expired_bridges(v: RegistryView, now: u64, timeout: u64) -> Set<Seq<char>> {
    Set::new(|id: Seq<char>| v.bridges.contains_key(id) && expired(v.bridges[id].last_seen, now, timeout))
}

/// The nodes whose heartbeat is overdue.
pub open spec fn expired_nodes(v: RegistryView, now: u64, timeout: u64) -> Set<Seq<char>> {
    Set::new(|id: Seq<char>| v.nodes.contains_key(id) && expired(v.nodes[id].last_seen, now, timeout))
}

/// The zones of the overdue routers.
pub open spec fn swept_router_zones(v: RegistryView, now: u64, timeout: u64) -> Set<Seq<char>> {
    Set::new(
        |zone: Seq<char>|
            exists|id: Seq<char>| #[trigger] expired_routers(v, now, timeout).contains(id) && v.routers[id].zone == zone,
    )
}

/// The zones of the overdue bridges.
pub open spec fn swept_bridge_zones(v: RegistryView, now: u64, timeout: u64) -> Set<Seq<char>> {
    Set::new(
        |zone: Seq<char>|
            exists|id: Seq<char>| #[trigger] expired_bridges(v, now, timeout).contains(id) && v.bridges[id].zone == zone,
    )
}

/// The shards of the overdue nodes.
pub open spec fn swept_node_shards(v: RegistryView, now: u64, timeout: u64) -> Set<Seq<char>> {
    Set::new(
        |shard: Seq<char>|
            exists|id: Seq<char>| #[trigger] expired_nodes(v, now, timeout).contains(id) && v.nodes[id].shard == shard,
    )
}

/// The router datasets of the zones.
pub open spec fn zone_routers_keys(zones: Seq<Seq<char>>) -> Seq<Seq<char>> {
    zones.map_values(|zone: Seq<char>| key_of(Dataset::ZoneRouters(zone)))
}

/// The shard mapping datasets of the zones.
pub open spec fn zone_shards_keys(zones: Seq<Seq<char>>) -> Seq<Seq<char>> {
    zones.map_values(|zone: Seq<char>| key_of(Dataset::ZoneShards(zone)))
}

/// The node datasets of the shards.
pub open spec fn shard_nodes_keys(shards: Seq<Seq<char>>) -> Seq<Seq<char>> {
    shards.map_values(|shard: Seq<char>| key_of(Dataset::ShardNodes(shard)))
}

/// The datasets that a sweep changes.
pub open spec fn sweep_keys(v: RegistryView, now: u64, timeout: u64) -> Seq<Seq<char>> {
    zone_routers_keys(listing(swept_router_zones(v, now, timeout))) + zone_shards_keys(
        listing(swept_bridge_zones(v, now, timeout)),
    ) + shard_nodes_keys(listing(swept_node_shards(v, now, timeout)))
}

/// The directory without the components whose heartbeat is overdue, its
/// versions as before.
pub open spec fn without_expired(v: RegistryView, now: u64, timeout: u64) -> RegistryView {
    RegistryView {
        routers: v.routers.remove_keys(expired_routers(v, now, timeout)),
        bridges: v.bridges.remove_keys(expired_bridges(v, now, timeout)),
        nodes: v.nodes.remove_keys(expired_nodes(v, now, timeout)),
        ..v
    }
}

/// The directory after a sweep.
pub open spec fn swept(v: RegistryView, now: u64, timeout: u64) -> RegistryView {
    bump_each(without_expired(v, now, timeout), sweep_keys(v, now, timeout))
}

/// The timeout in milliseconds. One that 64 bits cannot hold is longer than
/// any time that they can tell.
pub open spec fn timeout_of(secs: u64) -> u64 {
    if secs * 1000 > u64::MAX {
        u64::MAX
    } else {
        (secs * 1000) as u64
    }
}

/// The directory with every component seen at `now`.
pub open spec fn refreshed(v: RegistryView, now: u64) -> RegistryView {
    RegistryView {
        routers: v.routers.map_values(|r: RouterView| RouterView { last_seen: now, ..r }),
        bridges: v.bridges.map_values(|b: BridgeView| BridgeView { last_seen: now, ..b }),
        nodes: v.nodes.map_values(|n: NodeView| NodeView { last_seen: now, ..n }),
        ..v
    }
}

/// The directory as a start finds it: what was kept, every component seen just
/// now; or nothing.
pub open spec fn started(kept: Option<RegistryView>, now: u64) -> RegistryView {
    match kept {
        Some(v) => refreshed(v, now),
        None => empty_registry(),
    }
}

} // verus!
