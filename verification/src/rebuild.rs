//! Reconstruction of every index from the authoritative records.

use vstd::prelude::*;

use crate::index::{
    bridges_indexed, counts_of, entry_lists, lemma_group_step, lemma_mapping_done,
    lemma_mapping_empty, lemma_mapping_skip, lemma_mapping_step, list_at, mapping_at,
    mapping_of, nodes_indexed, push_under, routers_indexed, zone_bridges_indexed, AppData,
    Indexes,
};
use crate::model::{bridges_in, counts_fit, nodes_in, routers_in, BridgeView, NodeView, RouterView};
use crate::names::{lemma_prefix_set, lists};
use crate::records::{BridgeId, BridgeInfo, NodeId, NodeInfo, RouterId, RouterInfo};
use crate::segments::{count_owners, rebuild_zone_segment_vector};
use crate::table::NameMap;

verus! {

/// The router index, as far as the routers in `seen` go.
spec fn routers_of(
    index: Map<Seq<char>, Seq<Seq<char>>>,
    routers: Map<Seq<char>, RouterView>,
    seen: Set<Seq<char>>,
) -> bool {
    forall|zone: Seq<char>| #[trigger] entry_lists(index, zone, routers_in(routers, zone).intersect(seen))
}

/// Lists every zone's routers.
fn index_routers(routers: &NameMap<RouterInfo>) -> (r: NameMap<Vec<RouterId>>)
    ensures
        routers_indexed(r@, routers@),
{
    let mut index: NameMap<Vec<RouterId>> = NameMap::new();
    let n: usize = routers.len();
    let ghost q = routers.key_seq();
    let ghost m = routers@;
    proof {
        assert(q.take(0).to_set() =~= Set::<Seq<char>>::empty());
        assert forall|zone: Seq<char>|
            #[trigger] entry_lists(index@, zone, routers_in(m, zone).intersect(Set::empty())) by {
            assert(routers_in(m, zone).intersect(Set::empty()) =~= Set::<Seq<char>>::empty());
            assert(Seq::<Seq<char>>::empty().to_set() =~= Set::<Seq<char>>::empty());
        }
    }
    for i in 0..n
        invariant
            n == q.len(),
            q == routers.key_seq(),
            m == routers@,
            routers_of(index@, m, q.take(i as int).to_set()),
    {
        let info = routers.value_at(i);
        let id = routers.key_at(i);
        let ghost seen = q.take(i as int).to_set();
        let ghost before = index@;
        proof {
            lemma_prefix_set(q, i as int);
            assert(entry_lists(before, info.zone_id@, routers_in(m, info.zone_id@).intersect(seen)));
        }
        push_under(&mut index, &info.zone_id, id);
        assert forall|zone: Seq<char>|
            #[trigger] entry_lists(index@, zone, routers_in(m, zone).intersect(seen.insert(id@))) by {
            assert(entry_lists(before, zone, routers_in(m, zone).intersect(seen)));
            lemma_group_step(before, index@, info.zone_id@, zone, routers_in(m, zone), seen, id@);
        }
    }
    proof {
        assert(q.take(n as int) =~= q);
        assert forall|zone: Seq<char>| #[trigger] entry_lists(index@, zone, routers_in(m, zone)) by {
            assert(entry_lists(index@, zone, routers_in(m, zone).intersect(m.dom())));
            assert(routers_in(m, zone).intersect(m.dom()) =~= routers_in(m, zone));
        }
    }
    index
}

/// The node index, as far as the nodes in `seen` go.
spec fn nodes_of(index: Map<Seq<char>, Seq<Seq<char>>>, nodes: Map<Seq<char>, NodeView>, seen: Set<Seq<char>>) -> bool {
    forall|shard: Seq<char>| #[trigger] entry_lists(index, shard, nodes_in(nodes, shard).intersect(seen))
}

/// Lists every shard's nodes.
fn index_nodes(nodes: &NameMap<NodeInfo>) -> (r: NameMap<Vec<NodeId>>)
    ensures
        nodes_indexed(r@, nodes@),
{
    let mut index: NameMap<Vec<NodeId>> = NameMap::new();
    let n: usize = nodes.len();
    let ghost q = nodes.key_seq();
    let ghost m = nodes@;
    proof {
        assert(q.take(0).to_set() =~= Set::<Seq<char>>::empty());
        assert forall|shard: Seq<char>|
            #[trigger] entry_lists(index@, shard, nodes_in(m, shard).intersect(Set::empty())) by {
            assert(nodes_in(m, shard).intersect(Set::empty()) =~= Set::<Seq<char>>::empty());
            assert(Seq::<Seq<char>>::empty().to_set() =~= Set::<Seq<char>>::empty());
        }
    }
    for i in 0..n
        invariant
            n == q.len(),
            q == nodes.key_seq(),
            m == nodes@,
            nodes_of(index@, m, q.take(i as int).to_set()),
    {
        let info = nodes.value_at(i);
        let id = nodes.key_at(i);
        let ghost seen = q.take(i as int).to_set();
        let ghost before = index@;
        proof {
            lemma_prefix_set(q, i as int);
            assert(entry_lists(before, info.shard_id@, nodes_in(m, info.shard_id@).intersect(seen)));
        }
        push_under(&mut index, &info.shard_id, id);
        assert forall|shard: Seq<char>|
            #[trigger] entry_lists(index@, shard, nodes_in(m, shard).intersect(seen.insert(id@))) by {
            assert(entry_lists(before, shard, nodes_in(m, shard).intersect(seen)));
            lemma_group_step(before, index@, info.shard_id@, shard, nodes_in(m, shard), seen, id@);
        }
    }
    proof {
        assert(q.take(n as int) =~= q);
        assert forall|shard: Seq<char>| #[trigger] entry_lists(index@, shard, nodes_in(m, shard)) by {
            assert(entry_lists(index@, shard, nodes_in(m, shard).intersect(m.dom())));
            assert(nodes_in(m, shard).intersect(m.dom()) =~= nodes_in(m, shard));
        }
    }
    index
}

/// The bridge index, as far as the bridges in `seen` go.
spec fn bridges_of(
    index: Map<Seq<char>, Map<Seq<char>, Seq<Seq<char>>>>,
    bridges: Map<Seq<char>, BridgeView>,
    seen: Set<Seq<char>>,
) -> bool {
    forall|zone: Seq<char>|
        mapping_of(#[trigger] mapping_at(index, zone), bridges, zone, seen) && (index.contains_key(zone) <==> mapping_at(
            index,
            zone,
        ).dom() != Set::<Seq<char>>::empty())
}

/// Maps every zone's shards to their bridges.
fn index_bridges(bridges: &NameMap<BridgeInfo>) -> (r: NameMap<NameMap<Vec<BridgeId>>>)
    ensures
        bridges_indexed(r@, bridges@),
{
    let mut index: NameMap<NameMap<Vec<BridgeId>>> = NameMap::new();
    let n: usize = bridges.len();
    let ghost q = bridges.key_seq();
    let ghost m = bridges@;
    proof {
        assert(q.take(0).to_set() =~= Set::<Seq<char>>::empty());
        assert forall|zone: Seq<char>|
            mapping_of(#[trigger] mapping_at(index@, zone), m, zone, Set::empty()) && (index@.contains_key(zone)
                <==> mapping_at(index@, zone).dom() != Set::<Seq<char>>::empty()) by {
            lemma_mapping_empty(m, zone);
            assert(mapping_at(index@, zone).dom() =~= Set::<Seq<char>>::empty());
        }
    }
    for i in 0..n
        invariant
            n == q.len(),
            q == bridges.key_seq(),
            m == bridges@,
            bridges_of(index@, m, q.take(i as int).to_set()),
    {
        let info = bridges.value_at(i);
        let id = bridges.key_at(i);
        let ghost seen = q.take(i as int).to_set();
        let ghost before = index@;
        let mut shards: NameMap<Vec<BridgeId>> = match index.remove(info.zone_id.as_str()) {
            Some(shards) => shards,
            None => NameMap::new(),
        };
        let ghost old_mapping = shards@;
        proof {
            lemma_prefix_set(q, i as int);
            assert(old_mapping == mapping_at(before, info.zone_id@));
            assert(entry_lists(
                old_mapping,
                info.shard_id@,
                bridges_in(m, info.zone_id@, info.shard_id@).intersect(seen),
            ));
        }
        push_under(&mut shards, &info.shard_id, id);
        let ghost mapping = shards@;
        index.insert(info.zone_id.clone(), shards);
        proof {
            lemma_mapping_step(old_mapping, mapping, m, info.zone_id@, seen, id@);
            assert forall|zone: Seq<char>|
                mapping_of(#[trigger] mapping_at(index@, zone), m, zone, seen.insert(id@)) && (index@.contains_key(zone)
                    <==> mapping_at(index@, zone).dom() != Set::<Seq<char>>::empty()) by {
                if zone == info.zone_id@ {
                    assert(mapping_at(index@, zone) == mapping);
                    assert(mapping.dom().contains(info.shard_id@));
                } else {
                    assert(mapping_at(index@, zone) == mapping_at(before, zone));
                    lemma_mapping_skip(mapping_at(before, zone), m, zone, seen, id@);
                }
            }
        }
    }
    proof {
        assert(q.take(n as int) =~= q);
        assert forall|zone: Seq<char>| #[trigger] zone_bridges_indexed(index@, m, zone) by {
            assert(mapping_of(mapping_at(index@, zone), m, zone, m.dom()));
            lemma_mapping_done(mapping_at(index@, zone), m, zone);
        }
    }
    index
}

/// Rebuilds every index from the authoritative records.
pub fn rebuild_indexes(data: &mut AppData)
    requires
        counts_fit(old(data)@.shards),
    ensures
        final(data)@ == old(data)@,
        final(data).well_formed(),
        *final(data) == (AppData { indexes: final(data).indexes, ..*old(data) }),
{
    data.indexes = Indexes::new();
    data.indexes.routers_by_zone = index_routers(&data.components.routers);
    data.indexes.bridges_by_zone_shard = index_bridges(&data.components.bridges);
    data.indexes.nodes_by_shard = index_nodes(&data.components.nodes);
    data.indexes.segment_refs_by_zone = count_owners(&data.segments.by_shard);
    let zones = data.indexes.segment_refs_by_zone.keys();
    let ghost refs = data.indexes.segment_refs_by_zone@;
    let ghost q = zones.deep_view();
    let ghost start = *data;
    assert(q.take(0).to_set() =~= Set::<Seq<char>>::empty());
    for i in 0..zones.len()
        invariant
            q == zones.deep_view(),
            lists(q, refs.dom()),
            refs == data.indexes.segment_refs_by_zone@,
            *data == (AppData {
                indexes: Indexes { segments_by_zone: data.indexes.segments_by_zone, ..start.indexes },
                ..start
            }),
            data.indexes.segments_by_zone@.dom().subset_of(refs.dom()),
            forall|zone: Seq<char>|
                q.take(i as int).to_set().contains(zone) ==> lists(
                    #[trigger] list_at(data.indexes.segments_by_zone@, zone),
                    counts_of(refs, zone).dom(),
                ),
    {
        let ghost before = data.indexes.segments_by_zone@;
        rebuild_zone_segment_vector(data, zones[i].as_str());
        proof {
            let now = data.indexes.segments_by_zone@;
            lemma_prefix_set(q, i as int);
            assert(refs.dom().contains(q[i as int])) by {
                assert(q.to_set().contains(q[i as int]));
            }
            assert forall|zone: Seq<char>| zone != q[i as int] implies now.contains_key(zone) == before.contains_key(zone)
                && list_at(now, zone) == list_at(before, zone) by {
                assert(now.remove(q[i as int]).contains_key(zone) == before.remove(q[i as int]).contains_key(zone));
                assert(before.contains_key(zone) ==> now.remove(q[i as int])[zone] == before.remove(q[i as int])[zone]);
            }
            assert forall|zone: Seq<char>| now.dom().contains(zone) implies refs.dom().contains(zone) by {
                if zone != q[i as int] {
                    assert(now.remove(q[i as int]).contains_key(zone));
                    assert(before.dom().contains(zone));
                }
            }
        }
    }
    proof {
        assert(q.take(q.len() as int) =~= q);
        assert forall|zone: Seq<char>| lists(
            #[trigger] list_at(data.indexes.segments_by_zone@, zone),
            counts_of(refs, zone).dom(),
        ) by {
            if !refs.contains_key(zone) {
                assert(!data.indexes.segments_by_zone@.dom().contains(zone));
                assert(Seq::<Seq<char>>::empty().to_set() =~= Set::<Seq<char>>::empty());
                assert(counts_of(refs, zone).dom() =~= Set::<Seq<char>>::empty());
            }
        }
    }
}

} // verus!
