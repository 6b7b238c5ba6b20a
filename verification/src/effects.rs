//! What each change does to the state of the service, field by field.

use vstd::prelude::*;

use crate::api::registering;
use crate::change::{
    change_keys, changed, finitely_many, law_room_admits_every_change, lemma_swept_places,
    possible, roomy, Change,
};
use crate::keys::{key_of, law_keys_distinct, Dataset};
use crate::laws::lemma_sweep_keys;
use crate::model::{
    bridge_keys, bump_each, expired_bridges, expired_nodes, expired_routers, lemma_bump_each,
    lemma_times_append, lemma_times_bound, listing, node_keys, owners, room, router_keys,
    segment_keys, segments_in, segments_same, shard_nodes_keys, shards_updated, started,
    sweep_keys, swept, swept_bridge_zones, swept_node_shards, swept_router_zones, times, version,
    without_expired, zone_changes, zone_routers_keys, zone_shards_keys, BridgeView, NodeView,
    RegistryView, RouterView, ShardView,
};
use crate::names::lemma_ascending_distinct;
use crate::state::{after, lemma_sweep_removes, snapshot_taken, unsaved, write_ended, AppView};

verus! {

// ----------------------------------------------------------------------------
// Counting
// ----------------------------------------------------------------------------

/// How often a key stands in a list of one.
proof fn lemma_times_one(one: Seq<char>, key: Seq<char>)
    ensures
        times(seq![one], key) == if one == key {
            1nat
        } else {
            0nat
        },
{
    let keys = seq![one];
    assert(keys.drop_last() =~= Seq::<Seq<char>>::empty());
    assert(times(keys.drop_last(), key) == 0);
}

/// How often a key stands in a list of two.
proof fn lemma_times_two(one: Seq<char>, two: Seq<char>, key: Seq<char>)
    ensures
        times(seq![one, two], key) == (if one == key {
            1nat
        } else {
            0nat
        }) + (if two == key {
            1nat
        } else {
            0nat
        }),
{
    assert(seq![one, two] =~= seq![one] + seq![two]);
    lemma_times_append(seq![one], seq![two], key);
    lemma_times_one(one, key);
    lemma_times_one(two, key);
}

/// A key stands at most once in a list without repetition.
proof fn lemma_times_once(keys: Seq<Seq<char>>, key: Seq<char>)
    requires
        keys.no_duplicates(),
    ensures
        times(keys, key) == if keys.contains(key) {
            1nat
        } else {
            0nat
        },
    decreases keys.len(),
{
    lemma_times_bound(keys, key);
    if keys.len() > 0 {
        let init = keys.drop_last();
        lemma_times_once(init, key);
        if keys.last() == key && init.contains(key) {
            let i = choose|i: int| 0 <= i < init.len() && init[i] == key;
            assert(keys[i] == keys[keys.len() - 1]);
        }
    }
}

// ----------------------------------------------------------------------------
// Registration
// ----------------------------------------------------------------------------

/// A router that registers is kept with the zone and the time of its
/// registration, and nothing else is touched. The version of its zone grows by
/// one if it is new there, and that of the zone that it left, if any; these
/// are the changes that are marked to be written down. A mark that was there
/// stays.
pub proof fn law_router_registration(a: AppView, id: Seq<char>, zone: Seq<char>, now: u64)
    requires
        room(a.registry, change_keys(a.registry, (Change::Router { id, zone, now }))),
    ensures
        ({
            let b = after(a, Change::Router { id, zone, now });
            let v = a.registry;
            let w = b.registry;
            let new = !v.routers.contains_key(id);
            let moved = v.routers.contains_key(id) && v.routers[id].zone != zone;
            let left = v.routers[id].zone;
            &&& w.routers == v.routers.insert(id, RouterView { zone, last_seen: now })
            &&& w.bridges == v.bridges
            &&& w.nodes == v.nodes
            &&& w.shards == v.shards
            &&& forall|key: Seq<char>| #[trigger]
                version(w.versions, key) == version(v.versions, key) + (if (new || moved) && key == key_of(
                    Dataset::ZoneRouters(zone),
                ) {
                    1int
                } else {
                    0int
                }) + (if moved && key == key_of(Dataset::ZoneRouters(left)) {
                    1int
                } else {
                    0int
                })
            &&& forall|key: Seq<char>| #[trigger]
                w.versions.contains_key(key) <==> v.versions.contains_key(key) || (new || moved) && key == key_of(
                    Dataset::ZoneRouters(zone),
                ) || moved && key == key_of(Dataset::ZoneRouters(left))
            &&& w.global_version == v.global_version + (if new {
                1int
            } else if moved {
                2int
            } else {
                0int
            })
            &&& b.dirty <==> a.dirty || new || moved
            &&& b.saving == a.saving
            &&& b.timeout_ms == a.timeout_ms
            &&& b.buffer_ms == a.buffer_ms
            &&& b.codecs == a.codecs
        }),
{
    let v = a.registry;
    let keys = router_keys(v, id, zone);
    let base = RegistryView { routers: v.routers.insert(id, RouterView { zone, last_seen: now }), ..v };
    assert(room(base, keys));
    lemma_bump_each(base, keys);
    let to = key_of(Dataset::ZoneRouters(zone));
    let from = key_of(Dataset::ZoneRouters(v.routers[id].zone));
    assert forall|key: Seq<char>| #[trigger] times(keys, key) == (if keys.len() > 0 && key == to {
        1nat
    } else {
        0nat
    }) + (if keys.len() == 2 && key == from {
        1nat
    } else {
        0nat
    }) by {
        lemma_times_one(to, key);
        lemma_times_two(from, to, key);
    }
    assert forall|key: Seq<char>| keys.contains(key) == (keys.len() > 0 && key == to || keys.len() == 2 && key == from) by {
        lemma_times_bound(keys, key);
        assert(times(keys, key) >= 0);
    }
}

/// A bridge that registers is kept with the shard, the zone and the time of
/// its registration, and nothing else is touched. The version of its zone's
/// mapping grows by one if it is new there or serves another shard, and once
/// more for the zone that it served before; these are the changes that are
/// marked to be written down. A mark that was there stays.
pub proof fn law_bridge_registration(a: AppView, id: Seq<char>, shard: Seq<char>, zone: Seq<char>, now: u64)
    requires
        room(a.registry, change_keys(a.registry, (Change::Bridge { id, shard, zone, now }))),
    ensures
        ({
            let b = after(a, Change::Bridge { id, shard, zone, now });
            let v = a.registry;
            let w = b.registry;
            let new = !v.bridges.contains_key(id);
            let moved = v.bridges.contains_key(id) && (v.bridges[id].zone != zone || v.bridges[id].shard != shard);
            let left = v.bridges[id].zone;
            &&& w.bridges == v.bridges.insert(id, BridgeView { shard, zone, last_seen: now })
            &&& w.routers == v.routers
            &&& w.nodes == v.nodes
            &&& w.shards == v.shards
            &&& forall|key: Seq<char>| #[trigger]
                version(w.versions, key) == version(v.versions, key) + (if (new || moved) && key == key_of(
                    Dataset::ZoneShards(zone),
                ) {
                    1int
                } else {
                    0int
                }) + (if moved && key == key_of(Dataset::ZoneShards(left)) {
                    1int
                } else {
                    0int
                })
            &&& forall|key: Seq<char>| #[trigger]
                w.versions.contains_key(key) <==> v.versions.contains_key(key) || (new || moved) && key == key_of(
                    Dataset::ZoneShards(zone),
                ) || moved && key == key_of(Dataset::ZoneShards(left))
            &&& w.global_version == v.global_version + (if new {
                1int
            } else if moved {
                2int
            } else {
                0int
            })
            &&& b.dirty <==> a.dirty || new || moved
            &&& b.saving == a.saving
            &&& b.timeout_ms == a.timeout_ms
            &&& b.buffer_ms == a.buffer_ms
            &&& b.codecs == a.codecs
        }),
{
    let v = a.registry;
    let keys = bridge_keys(v, id, shard, zone);
    let base = RegistryView { bridges: v.bridges.insert(id, BridgeView { shard, zone, last_seen: now }), ..v };
    assert(room(base, keys));
    lemma_bump_each(base, keys);
    let to = key_of(Dataset::ZoneShards(zone));
    let from = key_of(Dataset::ZoneShards(v.bridges[id].zone));
    assert forall|key: Seq<char>| #[trigger] times(keys, key) == (if keys.len() > 0 && key == to {
        1nat
    } else {
        0nat
    }) + (if keys.len() == 2 && key == from {
        1nat
    } else {
        0nat
    }) by {
        lemma_times_one(to, key);
        lemma_times_two(from, to, key);
    }
    assert forall|key: Seq<char>| keys.contains(key) == (keys.len() > 0 && key == to || keys.len() == 2 && key == from) by {
        lemma_times_bound(keys, key);
        assert(times(keys, key) >= 0);
    }
}

/// A node that registers is kept with the shard, the zone and the time of its
/// registration, and nothing else is touched. The version of its shard's node
/// list grows by one if it is new there, and that of the shard that it left,
/// if any; these are the changes that are marked to be written down. A mark
/// that was there stays.
pub proof fn law_node_registration(a: AppView, id: Seq<char>, shard: Seq<char>, zone: Seq<char>, now: u64)
    requires
        room(a.registry, change_keys(a.registry, (Change::Node { id, shard, zone, now }))),
    ensures
        ({
            let b = after(a, Change::Node { id, shard, zone, now });
            let v = a.registry;
            let w = b.registry;
            let new = !v.nodes.contains_key(id);
            let moved = v.nodes.contains_key(id) && v.nodes[id].shard != shard;
            let left = v.nodes[id].shard;
            &&& w.nodes == v.nodes.insert(id, NodeView { shard, zone, last_seen: now })
            &&& w.routers == v.routers
            &&& w.bridges == v.bridges
            &&& w.shards == v.shards
            &&& forall|key: Seq<char>| #[trigger]
                version(w.versions, key) == version(v.versions, key) + (if (new || moved) && key == key_of(
                    Dataset::ShardNodes(shard),
                ) {
                    1int
                } else {
                    0int
                }) + (if moved && key == key_of(Dataset::ShardNodes(left)) {
                    1int
                } else {
                    0int
                })
            &&& forall|key: Seq<char>| #[trigger]
                w.versions.contains_key(key) <==> v.versions.contains_key(key) || (new || moved) && key == key_of(
                    Dataset::ShardNodes(shard),
                ) || moved && key == key_of(Dataset::ShardNodes(left))
            &&& w.global_version == v.global_version + (if new {
                1int
            } else if moved {
                2int
            } else {
                0int
            })
            &&& b.dirty <==> a.dirty || new || moved
            &&& b.saving == a.saving
            &&& b.timeout_ms == a.timeout_ms
            &&& b.buffer_ms == a.buffer_ms
            &&& b.codecs == a.codecs
        }),
{
    let v = a.registry;
    let keys = node_keys(v, id, shard);
    let base = RegistryView { nodes: v.nodes.insert(id, NodeView { shard, zone, last_seen: now }), ..v };
    assert(room(base, keys));
    lemma_bump_each(base, keys);
    let to = key_of(Dataset::ShardNodes(shard));
    let from = key_of(Dataset::ShardNodes(v.nodes[id].shard));
    assert forall|key: Seq<char>| #[trigger] times(keys, key) == (if keys.len() > 0 && key == to {
        1nat
    } else {
        0nat
    }) + (if keys.len() == 2 && key == from {
        1nat
    } else {
        0nat
    }) by {
        lemma_times_one(to, key);
        lemma_times_two(from, to, key);
    }
    assert forall|key: Seq<char>| keys.contains(key) == (keys.len() > 0 && key == to || keys.len() == 2 && key == from) by {
        lemma_times_bound(keys, key);
        assert(times(keys, key) >= 0);
    }
}

// ----------------------------------------------------------------------------
// Segment ownership
// ----------------------------------------------------------------------------

/// Some shard of the zone `z` owns the segment.
pub open spec fn owned_in(shards: Map<Seq<char>, ShardView>, z: Seq<char>, segment: Seq<char>) -> bool {
    exists|s: Seq<char>| #[trigger] shards.contains_key(s) && shards[s].zone == z && shards[s].set.contains(segment)
}

/// A zone's distinct segments are the same before and after exactly if no
/// segment gains its first or loses its last owner there.
proof fn lemma_zone_differs(a: Map<Seq<char>, ShardView>, b: Map<Seq<char>, ShardView>, z: Seq<char>)
    ensures
        segments_in(a, z) != segments_in(b, z) <==> exists|segment: Seq<char>|
            #[trigger] owned_in(a, z, segment) != owned_in(b, z, segment),
{
    law_zone_segments_are_owned(a, z);
    law_zone_segments_are_owned(b, z);
    let x = segments_in(a, z);
    let y = segments_in(b, z);
    if x != y {
        if forall|segment: Seq<char>| x.contains(segment) == y.contains(segment) {
            assert(x =~= y);
        }
        let segment = choose|segment: Seq<char>| x.contains(segment) != y.contains(segment);
        assert(owned_in(a, z, segment) != owned_in(b, z, segment));
    } else if exists|segment: Seq<char>| #[trigger] owned_in(a, z, segment) != owned_in(b, z, segment) {
        let segment = choose|segment: Seq<char>| #[trigger] owned_in(a, z, segment) != owned_in(b, z, segment);
        assert(x.contains(segment) != y.contains(segment));
    }
}

/// A zone's distinct segments are those that some shard there owns.
pub proof fn law_zone_segments_are_owned(shards: Map<Seq<char>, ShardView>, z: Seq<char>)
    ensures
        forall|segment: Seq<char>| #[trigger]
            segments_in(shards, z).contains(segment) <==> exists|s: Seq<char>| #[trigger]
                shards.contains_key(s) && shards[s].zone == z && shards[s].set.contains(segment),
        forall|segment: Seq<char>| #[trigger] segments_in(shards, z).contains(segment) <==> owned_in(shards, z, segment),
{
    assert forall|segment: Seq<char>| #[trigger]
        segments_in(shards, z).contains(segment) <==> owned_in(shards, z, segment) by {
        if segments_in(shards, z).contains(segment) {
            let s = choose|s: Seq<char>| owners(shards, z, segment).contains(s);
            assert(shards.contains_key(s));
        }
        if owned_in(shards, z, segment) {
            let s = choose|s: Seq<char>| #[trigger]
                shards.contains_key(s) && shards[s].zone == z && shards[s].set.contains(segment);
            assert(owners(shards, z, segment).contains(s));
        }
    }
}

/// A shard that publishes is kept with the zone and the segments of its
/// publication, and nothing else is touched. Its version grows by one. A
/// zone's version grows by one exactly if some segment gains its first owner
/// or loses its last owner there. A publication of what is kept already
/// changes nothing.
pub proof fn law_segment_publication(a: AppView, shard: Seq<char>, zone: Seq<char>, set: Set<Seq<char>>)
    requires
        room(a.registry, change_keys(a.registry, (Change::Segments { shard, zone, set }))),
    ensures
        ({
            let b = after(a, Change::Segments { shard, zone, set });
            let v = a.registry;
            let w = b.registry;
            if v.shards.contains_key(shard) && v.shards[shard].zone == zone && v.shards[shard].set == set {
                b == a
            } else {
                &&& w.shards.dom() == v.shards.dom().insert(shard)
                &&& w.shards[shard].zone == zone
                &&& w.shards[shard].set == set
                &&& w.shards[shard].sorted == listing(set)
                &&& forall|s: Seq<char>| s != shard && v.shards.contains_key(s) ==> #[trigger] w.shards[s] == v.shards[s]
                &&& w.routers == v.routers
                &&& w.bridges == v.bridges
                &&& w.nodes == v.nodes
                &&& version(w.versions, key_of(Dataset::ShardSegments(shard))) == version(
                    v.versions,
                    key_of(Dataset::ShardSegments(shard)),
                ) + 1
                &&& forall|z: Seq<char>|
                    #![trigger key_of(Dataset::ZoneSegments(z))]
                    version(w.versions, key_of(Dataset::ZoneSegments(z))) == version(
                        v.versions,
                        key_of(Dataset::ZoneSegments(z)),
                    ) + (if exists|segment: Seq<char>|
                        #[trigger] owned_in(v.shards, z, segment) != owned_in(w.shards, z, segment) {
                        1int
                    } else {
                        0int
                    })
                &&& forall|key: Seq<char>| #[trigger]
                    version(w.versions, key) != version(v.versions, key) ==> key == key_of(
                        Dataset::ShardSegments(shard),
                    ) || exists|z: Seq<char>| key == #[trigger] key_of(Dataset::ZoneSegments(z))
                &&& b.dirty
                &&& b.saving == a.saving
                &&& b.timeout_ms == a.timeout_ms
                &&& b.buffer_ms == a.buffer_ms
                &&& b.codecs == a.codecs
            }
        }),
{
    let v = a.registry;
    let c = Change::Segments { shard, zone, set };
    if segments_same(v, shard, zone, set) {
        assert(after(a, c) == a);
    } else {
        let keys = segment_keys(v, shard, zone, set);
        let base = RegistryView { shards: shards_updated(v.shards, shard, zone, set), ..v };
        assert(room(base, keys));
        lemma_bump_each(base, keys);
        let w = after(a, c).registry;
        assert(w.shards.dom() =~= v.shards.dom().insert(shard));
        let own = key_of(Dataset::ShardSegments(shard));
        let to = key_of(Dataset::ZoneSegments(zone));
        let from = key_of(Dataset::ZoneSegments(v.shards[shard].zone));
        let gone = v.shards.contains_key(shard) && v.shards[shard].zone != zone && zone_changes(
            v,
            shard,
            zone,
            set,
            v.shards[shard].zone,
        );
        let here = zone_changes(v, shard, zone, set, zone);
        assert forall|key: Seq<char>| #[trigger] times(keys, key) == (if key == own {
            1nat
        } else {
            0nat
        }) + (if gone && key == from {
            1nat
        } else {
            0nat
        }) + (if here && key == to {
            1nat
        } else {
            0nat
        }) by {
            let left = if gone {
                seq![from]
            } else {
                Seq::<Seq<char>>::empty()
            };
            let entered = if here {
                seq![to]
            } else {
                Seq::<Seq<char>>::empty()
            };
            assert(keys =~= seq![own] + left + entered);
            lemma_times_append(seq![own] + left, entered, key);
            lemma_times_append(seq![own], left, key);
            lemma_times_one(own, key);
            lemma_times_one(from, key);
            lemma_times_one(to, key);
            assert(times(Seq::<Seq<char>>::empty(), key) == 0);
        }
        if own == from {
            law_keys_distinct(Dataset::ShardSegments(shard), Dataset::ZoneSegments(v.shards[shard].zone));
        }
        if own == to {
            law_keys_distinct(Dataset::ShardSegments(shard), Dataset::ZoneSegments(zone));
        }
        if from == to {
            law_keys_distinct(
                Dataset::ZoneSegments(v.shards[shard].zone),
                Dataset::ZoneSegments(zone),
            );
        }
        assert(version(w.versions, own) == version(v.versions, own) + times(keys, own));
        assert forall|z: Seq<char>|
            #![trigger key_of(Dataset::ZoneSegments(z))]
            version(w.versions, key_of(Dataset::ZoneSegments(z))) == version(
                v.versions,
                key_of(Dataset::ZoneSegments(z)),
            ) + (if exists|segment: Seq<char>|
                        #[trigger] owned_in(v.shards, z, segment) != owned_in(w.shards, z, segment) {
                1int
            } else {
                0int
            }) by {
            let key = key_of(Dataset::ZoneSegments(z));
            assert(version(w.versions, key) == version(v.versions, key) + times(keys, key));
            if key == own {
                law_keys_distinct(Dataset::ZoneSegments(z), Dataset::ShardSegments(shard));
            }
            if key == to {
                law_keys_distinct(Dataset::ZoneSegments(z), Dataset::ZoneSegments(zone));
            }
            if key == from {
                law_keys_distinct(Dataset::ZoneSegments(z), Dataset::ZoneSegments(v.shards[shard].zone));
            }
            lemma_zone_differs(v.shards, w.shards, z);
            if z != zone && !(v.shards.contains_key(shard) && v.shards[shard].zone == z) {
                assert forall|segment: Seq<char>| segments_in(v.shards, z).contains(segment) == segments_in(
                    w.shards,
                    z,
                ).contains(segment) by {
                    assert(owners(v.shards, z, segment) =~= owners(w.shards, z, segment));
                }
                assert(segments_in(v.shards, z) =~= segments_in(w.shards, z));
            }
        }
        assert forall|key: Seq<char>| #[trigger] version(w.versions, key) != version(v.versions, key) implies key
            == own || exists|z: Seq<char>| key == #[trigger] key_of(Dataset::ZoneSegments(z)) by {
            assert(version(w.versions, key) == version(v.versions, key) + times(keys, key));
        }
    }
}

// ----------------------------------------------------------------------------
// Sweeps
// ----------------------------------------------------------------------------

/// A sweep counts no dataset twice.
proof fn lemma_sweep_keys_once(v: RegistryView, now: u64, timeout: u64)
    requires
        finitely_many(v),
    ensures
        sweep_keys(v, now, timeout).no_duplicates(),
{
    lemma_swept_places(v, now, timeout);
    let zones = listing(swept_router_zones(v, now, timeout));
    let bridged = listing(swept_bridge_zones(v, now, timeout));
    let shards = listing(swept_node_shards(v, now, timeout));
    lemma_ascending_distinct(zones);
    lemma_ascending_distinct(bridged);
    lemma_ascending_distinct(shards);
    let keys = sweep_keys(v, now, timeout);
    let m = zones.len() as int;
    let n = bridged.len() as int;
    assert(keys == zone_routers_keys(zones) + zone_shards_keys(bridged) + shard_nodes_keys(shards));
    assert forall|i: int, j: int| 0 <= i < j < keys.len() implies keys[i] != keys[j] by {
        if keys[i] == keys[j] {
            let p = if i < m {
                Dataset::ZoneRouters(zones[i])
            } else if i < m + n {
                Dataset::ZoneShards(bridged[i - m])
            } else {
                Dataset::ShardNodes(shards[i - m - n])
            };
            let q = if j < m {
                Dataset::ZoneRouters(zones[j])
            } else if j < m + n {
                Dataset::ZoneShards(bridged[j - m])
            } else {
                Dataset::ShardNodes(shards[j - m - n])
            };
            assert(keys[i] == key_of(p));
            assert(keys[j] == key_of(q));
            law_keys_distinct(p, q);
        }
    }
}

/// A sweep takes out exactly the components that were not heard of for longer
/// than the timeout. Each zone and shard that loses one has its version grow
/// by one, and no other version changes. A sweep that takes out something is
/// marked to be written down, and a mark that was there stays.
pub proof fn law_sweep(a: AppView, now: u64, timeout: u64)
    requires
        finitely_many(a.registry),
        room(a.registry, change_keys(a.registry, (Change::Sweep { now, timeout }))),
    ensures
        ({
            let b = after(a, Change::Sweep { now, timeout });
            let v = a.registry;
            let w = b.registry;
            &&& forall|id: Seq<char>| #[trigger]
                w.routers.contains_key(id) <==> v.routers.contains_key(id) && now - v.routers[id].last_seen <= timeout
            &&& forall|id: Seq<char>| #[trigger]
                w.bridges.contains_key(id) <==> v.bridges.contains_key(id) && now - v.bridges[id].last_seen <= timeout
            &&& forall|id: Seq<char>| #[trigger]
                w.nodes.contains_key(id) <==> v.nodes.contains_key(id) && now - v.nodes[id].last_seen <= timeout
            &&& forall|id: Seq<char>| w.routers.contains_key(id) ==> #[trigger] w.routers[id] == v.routers[id]
            &&& forall|id: Seq<char>| w.bridges.contains_key(id) ==> #[trigger] w.bridges[id] == v.bridges[id]
            &&& forall|id: Seq<char>| w.nodes.contains_key(id) ==> #[trigger] w.nodes[id] == v.nodes[id]
            &&& w.shards == v.shards
            &&& forall|d: Dataset|
                #![trigger key_of(d)]
                version(w.versions, key_of(d)) == version(v.versions, key_of(d)) + (if match d {
                    Dataset::ZoneRouters(zone) => exists|id: Seq<char>| #[trigger]
                        v.routers.contains_key(id) && v.routers[id].zone == zone && now - v.routers[id].last_seen
                            > timeout,
                    Dataset::ZoneShards(zone) => exists|id: Seq<char>| #[trigger]
                        v.bridges.contains_key(id) && v.bridges[id].zone == zone && now - v.bridges[id].last_seen
                            > timeout,
                    Dataset::ShardNodes(shard) => exists|id: Seq<char>| #[trigger]
                        v.nodes.contains_key(id) && v.nodes[id].shard == shard && now - v.nodes[id].last_seen > timeout,
                    Dataset::ZoneSegments(_) => false,
                    Dataset::ShardSegments(_) => false,
                } {
                    1int
                } else {
                    0int
                })
            &&& forall|key: Seq<char>| #[trigger]
                version(w.versions, key) != version(v.versions, key) ==> exists|d: Dataset| key == #[trigger] key_of(d)
            &&& b.dirty <==> a.dirty || (exists|id: Seq<char>| #[trigger]
                v.routers.contains_key(id) && now - v.routers[id].last_seen > timeout) || (exists|id: Seq<char>|
             #[trigger] v.bridges.contains_key(id) && now - v.bridges[id].last_seen > timeout) || (exists|
                id: Seq<char>,
            | #[trigger] v.nodes.contains_key(id) && now - v.nodes[id].last_seen > timeout)
            &&& b.saving == a.saving
            &&& b.timeout_ms == a.timeout_ms
            &&& b.buffer_ms == a.buffer_ms
            &&& b.codecs == a.codecs
        }),
{
    let v = a.registry;
    let keys = sweep_keys(v, now, timeout);
    let base = without_expired(v, now, timeout);
    assert(room(base, keys));
    lemma_bump_each(base, keys);
    lemma_sweep_keys_once(v, now, timeout);
    let w = after(a, Change::Sweep { now, timeout }).registry;
    assert forall|d: Dataset|
        #![trigger key_of(d)]
        version(w.versions, key_of(d)) == version(v.versions, key_of(d)) + (if match d {
            Dataset::ZoneRouters(zone) => exists|id: Seq<char>| #[trigger]
                v.routers.contains_key(id) && v.routers[id].zone == zone && now - v.routers[id].last_seen > timeout,
            Dataset::ZoneShards(zone) => exists|id: Seq<char>| #[trigger]
                v.bridges.contains_key(id) && v.bridges[id].zone == zone && now - v.bridges[id].last_seen > timeout,
            Dataset::ShardNodes(shard) => exists|id: Seq<char>| #[trigger]
                v.nodes.contains_key(id) && v.nodes[id].shard == shard && now - v.nodes[id].last_seen > timeout,
            Dataset::ZoneSegments(_) => false,
            Dataset::ShardSegments(_) => false,
        } {
            1int
        } else {
            0int
        }) by {
        lemma_times_once(keys, key_of(d));
        lemma_sweep_keys(v, now, timeout, d);
        assert(version(w.versions, key_of(d)) == version(v.versions, key_of(d)) + times(keys, key_of(d)));
        match d {
            Dataset::ZoneRouters(zone) => {
                if exists|id: Seq<char>| #[trigger]
                    v.routers.contains_key(id) && v.routers[id].zone == zone && now - v.routers[id].last_seen > timeout {
                    let id = choose|id: Seq<char>| #[trigger]
                        v.routers.contains_key(id) && v.routers[id].zone == zone && now - v.routers[id].last_seen
                            > timeout;
                    assert(expired_routers(v, now, timeout).contains(id));
                }
                if swept_router_zones(v, now, timeout).contains(zone) {
                    let id = choose|id: Seq<char>|
                        #[trigger] expired_routers(v, now, timeout).contains(id) && v.routers[id].zone == zone;
                    assert(v.routers.contains_key(id));
                }
            },
            Dataset::ZoneShards(zone) => {
                if exists|id: Seq<char>| #[trigger]
                    v.bridges.contains_key(id) && v.bridges[id].zone == zone && now - v.bridges[id].last_seen > timeout {
                    let id = choose|id: Seq<char>| #[trigger]
                        v.bridges.contains_key(id) && v.bridges[id].zone == zone && now - v.bridges[id].last_seen
                            > timeout;
                    assert(expired_bridges(v, now, timeout).contains(id));
                }
                if swept_bridge_zones(v, now, timeout).contains(zone) {
                    let id = choose|id: Seq<char>|
                        #[trigger] expired_bridges(v, now, timeout).contains(id) && v.bridges[id].zone == zone;
                    assert(v.bridges.contains_key(id));
                }
            },
            Dataset::ShardNodes(shard) => {
                if exists|id: Seq<char>| #[trigger]
                    v.nodes.contains_key(id) && v.nodes[id].shard == shard && now - v.nodes[id].last_seen > timeout {
                    let id = choose|id: Seq<char>| #[trigger]
                        v.nodes.contains_key(id) && v.nodes[id].shard == shard && now - v.nodes[id].last_seen > timeout;
                    assert(expired_nodes(v, now, timeout).contains(id));
                }
                if swept_node_shards(v, now, timeout).contains(shard) {
                    let id = choose|id: Seq<char>|
                        #[trigger] expired_nodes(v, now, timeout).contains(id) && v.nodes[id].shard == shard;
                    assert(v.nodes.contains_key(id));
                }
            },
            _ => {},
        }
    }
    assert forall|key: Seq<char>| #[trigger] version(w.versions, key) != version(v.versions, key) implies exists|
        d: Dataset,
    | key == #[trigger] key_of(d) by {
        assert(version(w.versions, key) == version(v.versions, key) + times(keys, key));
        lemma_times_bound(keys, key);
        lemma_key_is_a_dataset(v, now, timeout, key);
    }
    lemma_sweep_removes(v, now, timeout);
    assert forall|id: Seq<char>| #[trigger] v.routers.contains_key(id) && now - v.routers[id].last_seen > timeout implies
        expired_routers(v, now, timeout).contains(id) by {}
    assert forall|id: Seq<char>| #[trigger] v.bridges.contains_key(id) && now - v.bridges[id].last_seen > timeout implies
        expired_bridges(v, now, timeout).contains(id) by {}
    assert forall|id: Seq<char>| #[trigger] v.nodes.contains_key(id) && now - v.nodes[id].last_seen > timeout implies
        expired_nodes(v, now, timeout).contains(id) by {}
    lemma_some_member(expired_routers(v, now, timeout), v.routers.dom());
    lemma_some_member(expired_bridges(v, now, timeout), v.bridges.dom());
    lemma_some_member(expired_nodes(v, now, timeout), v.nodes.dom());
}

/// A finite set has a member exactly if it counts one.
proof fn lemma_some_member(s: Set<Seq<char>>, all: Set<Seq<char>>)
    requires
        all.finite(),
        s.subset_of(all),
    ensures
        s.len() > 0 <==> exists|n: Seq<char>| s.contains(n),
{
    vstd::set_lib::lemma_len_subset(s, all);
    if s.len() > 0 {
        assert(s.contains(s.choose()));
    } else {
        s.lemma_len0_is_empty();
    }
}

/// Whatever a sweep counts is a dataset.
proof fn lemma_key_is_a_dataset(v: RegistryView, now: u64, timeout: u64, key: Seq<char>)
    requires
        sweep_keys(v, now, timeout).contains(key),
    ensures
        exists|d: Dataset| key == #[trigger] key_of(d),
{
    let zones = listing(swept_router_zones(v, now, timeout));
    let bridged = listing(swept_bridge_zones(v, now, timeout));
    let shards = listing(swept_node_shards(v, now, timeout));
    let keys = sweep_keys(v, now, timeout);
    let m = zones.len() as int;
    let n = bridged.len() as int;
    let i = choose|i: int| 0 <= i < keys.len() && keys[i] == key;
    let d = if i < m {
        Dataset::ZoneRouters(zones[i])
    } else if i < m + n {
        Dataset::ZoneShards(bridged[i - m])
    } else {
        Dataset::ShardNodes(shards[i - m - n])
    };
    assert(keys[i] == key_of(d));
}

// ----------------------------------------------------------------------------
// Heartbeats
// ----------------------------------------------------------------------------

/// Counting versions touches no record.
proof fn lemma_bumps_keep_records(v: RegistryView, keys: Seq<Seq<char>>)
    ensures
        bump_each(v, keys).routers == v.routers,
        bump_each(v, keys).bridges == v.bridges,
        bump_each(v, keys).nodes == v.nodes,
        bump_each(v, keys).shards == v.shards,
    decreases keys.len(),
{
    if keys.len() > 0 {
        lemma_bumps_keep_records(v, keys.drop_last());
    }
}

/// A sweep keeps exactly the components that were heard of within the timeout,
/// each as it was, and everything that was published.
pub proof fn law_sweep_keeps_who_was_heard_of(v: RegistryView, now: u64, timeout: u64)
    ensures
        forall|id: Seq<char>| #[trigger]
            swept(v, now, timeout).routers.contains_key(id) <==> v.routers.contains_key(id) && now
                - v.routers[id].last_seen <= timeout,
        forall|id: Seq<char>| #[trigger]
            swept(v, now, timeout).bridges.contains_key(id) <==> v.bridges.contains_key(id) && now
                - v.bridges[id].last_seen <= timeout,
        forall|id: Seq<char>| #[trigger]
            swept(v, now, timeout).nodes.contains_key(id) <==> v.nodes.contains_key(id) && now
                - v.nodes[id].last_seen <= timeout,
        forall|id: Seq<char>|
            swept(v, now, timeout).routers.contains_key(id) ==> #[trigger] swept(v, now, timeout).routers[id]
                == v.routers[id],
        forall|id: Seq<char>|
            swept(v, now, timeout).bridges.contains_key(id) ==> #[trigger] swept(v, now, timeout).bridges[id]
                == v.bridges[id],
        forall|id: Seq<char>|
            swept(v, now, timeout).nodes.contains_key(id) ==> #[trigger] swept(v, now, timeout).nodes[id]
                == v.nodes[id],
        swept(v, now, timeout).shards == v.shards,
{
    lemma_bumps_keep_records(without_expired(v, now, timeout), sweep_keys(v, now, timeout));
}

/// A component that registers, for the first time or again, is kept where the
/// registration says, heard of at the time of the registration.
pub proof fn law_registration_is_recorded(v: RegistryView, c: Change)
    ensures
        match c {
            Change::Router { id, zone, now } => changed(v, c).routers == v.routers.insert(
                id,
                RouterView { zone, last_seen: now },
            ),
            Change::Bridge { id, shard, zone, now } => changed(v, c).bridges == v.bridges.insert(
                id,
                BridgeView { shard, zone, last_seen: now },
            ),
            Change::Node { id, shard, zone, now } => changed(v, c).nodes == v.nodes.insert(
                id,
                NodeView { shard, zone, last_seen: now },
            ),
            _ => true,
        },
{
    match c {
        Change::Router { id, zone, now } => {
            let base = RegistryView { routers: v.routers.insert(id, RouterView { zone, last_seen: now }), ..v };
            lemma_bumps_keep_records(base, router_keys(v, id, zone));
        },
        Change::Bridge { id, shard, zone, now } => {
            let base = RegistryView { bridges: v.bridges.insert(id, BridgeView { shard, zone, last_seen: now }), ..v };
            lemma_bumps_keep_records(base, bridge_keys(v, id, shard, zone));
        },
        Change::Node { id, shard, zone, now } => {
            let base = RegistryView { nodes: v.nodes.insert(id, NodeView { shard, zone, last_seen: now }), ..v };
            lemma_bumps_keep_records(base, node_keys(v, id, shard));
        },
        _ => {},
    }
}

/// A component that registered at `seen`, for the first time or again, and was
/// silent since, survives a sweep exactly as long as the timeout is not over.
pub proof fn law_silent_component_lives_one_timeout(v: RegistryView, c: Change, now: u64, timeout: u64)
    ensures
        ({
            let w = swept(changed(v, c), now, timeout);
            match c {
                Change::Router { id, zone, now: seen } => w.routers.contains_key(id) <==> now - seen <= timeout,
                Change::Bridge { id, shard, zone, now: seen } => w.bridges.contains_key(id) <==> now - seen <= timeout,
                Change::Node { id, shard, zone, now: seen } => w.nodes.contains_key(id) <==> now - seen <= timeout,
                _ => true,
            }
        }),
{
    law_registration_is_recorded(v, c);
    law_sweep_keeps_who_was_heard_of(changed(v, c), now, timeout);
}

/// A registration request that is granted counts from the moment `seen` at
/// which it came: a sweep keeps the component exactly as long as the timeout
/// is not over since then, and keeps it where the request says.
pub proof fn law_granted_request_is_a_heartbeat(
    v: RegistryView,
    kind: Seq<char>,
    id: Seq<char>,
    zone: Seq<char>,
    shard: Option<Seq<char>>,
    seen: u64,
    now: u64,
    timeout: u64,
)
    requires
        registering(kind, id, zone, shard, seen) is Ok,
    ensures
        ({
            let w = swept(changed(v, registering(kind, id, zone, shard, seen)->Ok_0), now, timeout);
            &&& kind == "router"@ ==> {
                &&& w.routers.contains_key(id) <==> now - seen <= timeout
                &&& w.routers.contains_key(id) ==> w.routers[id] == (RouterView { zone, last_seen: seen })
            }
            &&& kind == "bridge"@ ==> {
                &&& shard is Some
                &&& w.bridges.contains_key(id) <==> now - seen <= timeout
                &&& w.bridges.contains_key(id) ==> w.bridges[id] == (BridgeView {
                    shard: shard->0,
                    zone,
                    last_seen: seen,
                })
            }
            &&& kind == "node"@ ==> {
                &&& shard is Some
                &&& w.nodes.contains_key(id) <==> now - seen <= timeout
                &&& w.nodes.contains_key(id) ==> w.nodes[id] == (NodeView { shard: shard->0, zone, last_seen: seen })
            }
            &&& kind == "router"@ || kind == "bridge"@ || kind == "node"@
        }),
{
    reveal_strlit("router");
    reveal_strlit("bridge");
    reveal_strlit("node");
    assert("router"@[0] != "bridge"@[0]);
    assert("router"@.len() != "node"@.len());
    assert("bridge"@.len() != "node"@.len());
    let c = registering(kind, id, zone, shard, seen)->Ok_0;
    law_registration_is_recorded(v, c);
    law_sweep_keeps_who_was_heard_of(changed(v, c), now, timeout);
}

// ----------------------------------------------------------------------------
// Persistence
// ----------------------------------------------------------------------------

/// No change takes the mark away: what was to be written down before it is
/// still to be written down after it.
pub proof fn law_no_change_clears_the_mark(a: AppView, c: Change)
    ensures
        a.dirty ==> after(a, c).dirty,
        after(a, c).saving == a.saving,
        unsaved(a) ==> unsaved(after(a, c)),
{
}

/// Only the end of a successful write clears the mark, and only where nothing
/// came in since the snapshot was taken. Neither a snapshot nor the end of its
/// write changes anything but the mark.
pub proof fn law_only_a_successful_write_clears_the_mark(a: AppView, written: bool)
    ensures
        unsaved(a) <==> a.dirty || a.saving,
        unsaved(snapshot_taken(a)),
        !snapshot_taken(a).dirty,
        !unsaved(write_ended(a, written)) <==> written && !a.dirty,
        snapshot_taken(a).registry == a.registry && write_ended(a, written).registry == a.registry,
        snapshot_taken(a).timeout_ms == a.timeout_ms && write_ended(a, written).timeout_ms == a.timeout_ms,
        snapshot_taken(a).buffer_ms == a.buffer_ms && write_ended(a, written).buffer_ms == a.buffer_ms,
        snapshot_taken(a).codecs == a.codecs && write_ended(a, written).codecs == a.codecs,
{
}

/// The state after some changes, one after the other.
pub open spec fn after_all(a: AppView, changes: Seq<Change>) -> AppView
    decreases changes.len(),
{
    if changes.len() == 0 {
        a
    } else {
        after(after_all(a, changes.drop_last()), changes.last())
    }
}

/// However many changes and heartbeats follow, what is to be written down
/// stays so until it is written.
pub proof fn law_marked_until_written(a: AppView, changes: Seq<Change>)
    requires
        a.dirty || a.saving,
    ensures
        after_all(a, changes).dirty || after_all(a, changes).saving,
        a.dirty ==> after_all(a, changes).dirty,
    decreases changes.len(),
{
    if changes.len() > 0 {
        law_marked_until_written(a, changes.drop_last());
        law_no_change_clears_the_mark(after_all(a, changes.drop_last()), changes.last());
    }
}

// ----------------------------------------------------------------------------
// Restarts
// ----------------------------------------------------------------------------

/// A restart keeps every component where it was, heard of at the moment of the
/// restart, and everything else as it was. Without a state file there is
/// nothing.
pub proof fn law_restart(v: RegistryView, now: u64)
    ensures
        ({
            let w = started(Some(v), now);
            &&& w.routers.dom() == v.routers.dom()
            &&& w.bridges.dom() == v.bridges.dom()
            &&& w.nodes.dom() == v.nodes.dom()
            &&& forall|id: Seq<char>|
                v.routers.contains_key(id) ==> #[trigger] w.routers[id] == (RouterView {
                    zone: v.routers[id].zone,
                    last_seen: now,
                })
            &&& forall|id: Seq<char>|
                v.bridges.contains_key(id) ==> #[trigger] w.bridges[id] == (BridgeView {
                    shard: v.bridges[id].shard,
                    zone: v.bridges[id].zone,
                    last_seen: now,
                })
            &&& forall|id: Seq<char>|
                v.nodes.contains_key(id) ==> #[trigger] w.nodes[id] == (NodeView {
                    shard: v.nodes[id].shard,
                    zone: v.nodes[id].zone,
                    last_seen: now,
                })
            &&& w.shards == v.shards
            &&& w.versions == v.versions
            &&& w.global_version == v.global_version
        }),
        ({
            let w = started(None, now);
            &&& w.routers == Map::<Seq<char>, RouterView>::empty()
            &&& w.bridges == Map::<Seq<char>, BridgeView>::empty()
            &&& w.nodes == Map::<Seq<char>, NodeView>::empty()
            &&& w.shards == Map::<Seq<char>, ShardView>::empty()
            &&& w.versions == Map::<Seq<char>, u64>::empty()
            &&& w.global_version == 0
        }),
{
    let w = started(Some(v), now);
    assert(w.routers.dom() =~= v.routers.dom());
    assert(w.bridges.dom() =~= v.bridges.dom());
    assert(w.nodes.dom() =~= v.nodes.dom());
}

/// After a restart every component has exactly one timeout to be heard of
/// again: a sweep until then removes none, a sweep after that removes all.
pub proof fn law_restart_gives_exactly_one_timeout(v: RegistryView, restart: u64, now: u64, timeout: u64)
    ensures
        ({
            let w = swept(started(Some(v), restart), now, timeout);
            if now - restart > timeout {
                &&& w.routers == Map::<Seq<char>, RouterView>::empty()
                &&& w.bridges == Map::<Seq<char>, BridgeView>::empty()
                &&& w.nodes == Map::<Seq<char>, NodeView>::empty()
            } else {
                &&& w.routers.dom() == v.routers.dom()
                &&& w.bridges.dom() == v.bridges.dom()
                &&& w.nodes.dom() == v.nodes.dom()
            }
        }),
{
    let u = started(Some(v), restart);
    law_restart(v, restart);
    law_sweep_keeps_who_was_heard_of(u, now, timeout);
    let w = swept(u, now, timeout);
    assert forall|id: Seq<char>| u.routers.contains_key(id) implies u.routers[id].last_seen == restart by {
        assert(v.routers.contains_key(id));
    }
    assert forall|id: Seq<char>| u.bridges.contains_key(id) implies u.bridges[id].last_seen == restart by {
        assert(v.bridges.contains_key(id));
    }
    assert forall|id: Seq<char>| u.nodes.contains_key(id) implies u.nodes[id].last_seen == restart by {
        assert(v.nodes.contains_key(id));
    }
    if now - restart > timeout {
        assert(w.routers =~= Map::<Seq<char>, RouterView>::empty());
        assert(w.bridges =~= Map::<Seq<char>, BridgeView>::empty());
        assert(w.nodes =~= Map::<Seq<char>, NodeView>::empty());
    } else {
        assert(w.routers.dom() =~= v.routers.dom());
        assert(w.bridges.dom() =~= v.bridges.dom());
        assert(w.nodes.dom() =~= v.nodes.dom());
    }
}

// ----------------------------------------------------------------------------
// Limits
// ----------------------------------------------------------------------------

/// Only a counter near its end stands in the way of a change: as long as every
/// version can still grow by three and by one for each component, and there
/// are fewer shards than 32 bits count, every change is possible.
pub proof fn law_only_full_counters_refuse(v: RegistryView, c: Change)
    requires
        finitely_many(v),
        v.global_version + 3 + v.routers.dom().len() + v.bridges.dom().len() + v.nodes.dom().len() <= u64::MAX,
        forall|key: Seq<char>| #[trigger]
            v.versions.contains_key(key) ==> v.versions[key] + 3 + v.routers.dom().len() + v.bridges.dom().len()
                + v.nodes.dom().len() <= u64::MAX,
        v.shards.dom().len() < u32::MAX,
    ensures
        roomy(v),
        possible(v, c),
        room(v, change_keys(v, c)),
{
    law_room_admits_every_change(v, c);
}

} // verus!
