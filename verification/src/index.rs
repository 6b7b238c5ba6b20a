//! The derived indexes, kept up to date on every write so that reads need no
//! scan of the authoritative records.

use vstd::prelude::*;

use crate::model::{
    bridges_in, nodes_in, owners, routers_in, shards_in, BridgeView, NodeView, RegistryView,
    RouterView, ShardView,
};
use crate::names::{ascending, insert_sorted, lemma_prefix_set, lists, NameList};
use crate::records::{BridgeId, Components, NodeId, RouterId, Segment, SegmentStore, Version};
use crate::table::NameMap;

verus! {

// ----------------------------------------------------------------------------
// Grouped name lists
// ----------------------------------------------------------------------------

/// The list under `key`; empty where there is none.
pub open spec fn list_at(index: Map<Seq<char>, Seq<Seq<char>>>, key: Seq<char>) -> Seq<Seq<char>> {
    if index.contains_key(key) {
        index[key]
    } else {
        Seq::empty()
    }
}

/// The index has an entry under `key` exactly if `group` has a member, and the
/// entry is the listing of `group`.
pub open spec fn entry_lists(index: Map<Seq<char>, Seq<Seq<char>>>, key: Seq<char>, group: Set<Seq<char>>) -> bool {
    &&& index.contains_key(key) <==> group != Set::<Seq<char>>::empty()
    &&& lists(list_at(index, key), group)
}

/// Maps that agree but for one key agree on every other key.
pub proof fn lemma_kept<V>(before: Map<Seq<char>, V>, after: Map<Seq<char>, V>, key: Seq<char>, other: Seq<char>)
    requires
        after.remove(key) == before.remove(key),
        other != key,
    ensures
        after.contains_key(other) == before.contains_key(other),
        before.contains_key(other) ==> after[other] == before[other],
{
    assert(after.remove(key).contains_key(other) == after.contains_key(other));
    assert(before.remove(key).contains_key(other) == before.contains_key(other));
    if before.contains_key(other) {
        assert(after.remove(key)[other] == after[other]);
        assert(before.remove(key)[other] == before[other]);
    }
}

/// Adds a name to the list under `key`.
pub(crate) fn push_under(index: &mut NameMap<Vec<String>>, key: &String, name: &String)
    requires
        ascending(list_at(old(index)@, key@)),
    ensures
        final(index)@ == old(index)@.insert(key@, list_at(final(index)@, key@)),
        lists(list_at(final(index)@, key@), list_at(old(index)@, key@).to_set().insert(name@)),
{
    let mut names: Vec<String> = match index.remove(key.as_str()) {
        Some(names) => names,
        None => Vec::new(),
    };
    assert(names.deep_view() =~= list_at(old(index)@, key@));
    insert_sorted(&mut names, name.clone());
    index.insert(key.clone(), names);
    assert(index@ =~= old(index)@.insert(key@, list_at(index@, key@)));
}

// ----------------------------------------------------------------------------
// Runtime state
// ----------------------------------------------------------------------------

/// The query-optimized indexes.
#[derive(Debug, PartialEq, Eq)]
pub struct Indexes {
    /// Zone to sorted router ids.
    pub routers_by_zone: NameMap<Vec<RouterId>>,
    /// Zone to shard to sorted bridge ids.
    pub bridges_by_zone_shard: NameMap<NameMap<Vec<BridgeId>>>,
    /// Shard to sorted node ids.
    pub nodes_by_shard: NameMap<Vec<NodeId>>,
    /// Zone to segment to the number of shards that own it.
    pub segment_refs_by_zone: NameMap<NameMap<u32>>,
    /// Zone to sorted distinct segments.
    pub segments_by_zone: NameMap<Vec<Segment>>,
}

impl Indexes {
    /// The indexes of an empty directory.
    pub fn new() -> (r: Self)
        ensures
            r.routers_by_zone@ == Map::<Seq<char>, Seq<Seq<char>>>::empty(),
            r.bridges_by_zone_shard@ == Map::<Seq<char>, Map<Seq<char>, Seq<Seq<char>>>>::empty(),
            r.nodes_by_shard@ == Map::<Seq<char>, Seq<Seq<char>>>::empty(),
            r.segment_refs_by_zone@ == Map::<Seq<char>, Map<Seq<char>, u32>>::empty(),
            r.segments_by_zone@ == Map::<Seq<char>, Seq<Seq<char>>>::empty(),
    {
        Indexes {
            routers_by_zone: NameMap::new(),
            bridges_by_zone_shard: NameMap::new(),
            nodes_by_shard: NameMap::new(),
            segment_refs_by_zone: NameMap::new(),
            segments_by_zone: NameMap::new(),
        }
    }
}

/// The runtime state: authoritative records, derived indexes and versions.
#[derive(Debug, PartialEq, Eq)]
pub struct AppData {
    pub components: Components,
    pub segments: SegmentStore,
    pub indexes: Indexes,
    pub versions: NameMap<Version>,
    pub global_version: Version,
}

impl View for AppData {
    type V = RegistryView;

    open spec fn view(&self) -> RegistryView {
        RegistryView {
            routers: self.components.routers@,
            bridges: self.components.bridges@,
            nodes: self.components.nodes@,
            shards: self.segments.by_shard@,
            versions: self.versions@,
            global_version: self.global_version,
        }
    }
}

/// The router index of every zone is the listing of the zone's routers.
pub open spec fn routers_indexed(index: Map<Seq<char>, Seq<Seq<char>>>, routers: Map<Seq<char>, RouterView>) -> bool {
    forall|zone: Seq<char>| #[trigger] entry_lists(index, zone, routers_in(routers, zone))
}

/// The shard mapping of a zone; empty where there is none.
pub open spec fn mapping_at(
    index: Map<Seq<char>, Map<Seq<char>, Seq<Seq<char>>>>,
    zone: Seq<char>,
) -> Map<Seq<char>, Seq<Seq<char>>> {
    if index.contains_key(zone) {
        index[zone]
    } else {
        Map::empty()
    }
}

/// The bridge index of a zone maps each shard served there to the listing of
/// the bridges that serve it.
pub open spec fn zone_bridges_indexed(
    index: Map<Seq<char>, Map<Seq<char>, Seq<Seq<char>>>>,
    bridges: Map<Seq<char>, BridgeView>,
    zone: Seq<char>,
) -> bool {
    &&& index.contains_key(zone) <==> shards_in(bridges, zone) != Set::<Seq<char>>::empty()
    &&& forall|shard: Seq<char>| #[trigger] entry_lists(mapping_at(index, zone), shard, bridges_in(bridges, zone, shard))
}

/// The bridge index is right for every zone.
pub open spec fn bridges_indexed(
    index: Map<Seq<char>, Map<Seq<char>, Seq<Seq<char>>>>,
    bridges: Map<Seq<char>, BridgeView>,
) -> bool {
    forall|zone: Seq<char>| #[trigger] zone_bridges_indexed(index, bridges, zone)
}

/// The node index of every shard is the listing of the shard's nodes.
pub open spec fn nodes_indexed(index: Map<Seq<char>, Seq<Seq<char>>>, nodes: Map<Seq<char>, NodeView>) -> bool {
    forall|shard: Seq<char>| #[trigger] entry_lists(index, shard, nodes_in(nodes, shard))
}

/// The counts of a zone; empty where there are none.
pub open spec fn counts_of(refs: Map<Seq<char>, Map<Seq<char>, u32>>, zone: Seq<char>) -> Map<Seq<char>, u32> {
    if refs.contains_key(zone) {
        refs[zone]
    } else {
        Map::empty()
    }
}

/// The count of a segment; zero where there is none.
pub open spec fn count_at(counts: Map<Seq<char>, u32>, segment: Seq<char>) -> nat {
    if counts.contains_key(segment) {
        counts[segment] as nat
    } else {
        0
    }
}

/// No segment is kept with the count zero.
pub open spec fn positive(counts: Map<Seq<char>, u32>) -> bool {
    forall|segment: Seq<char>| #[trigger] counts.contains_key(segment) ==> counts[segment] > 0
}

/// No zone keeps a segment with the count zero.
pub open spec fn all_positive(refs: Map<Seq<char>, Map<Seq<char>, u32>>) -> bool {
    forall|zone: Seq<char>| positive(#[trigger] counts_of(refs, zone))
}

/// Every segment's count is the number of its owners in the zone.
pub open spec fn owners_counted(refs: Map<Seq<char>, Map<Seq<char>, u32>>, shards: Map<Seq<char>, ShardView>) -> bool {
    &&& all_positive(refs)
    &&& forall|zone: Seq<char>, segment: Seq<char>|
        (#[trigger] owners(shards, zone, segment)).finite() && count_at(counts_of(refs, zone), segment) == owners(
            shards,
            zone,
            segment,
        ).len()
}

/// The segment list of every zone is the listing of its counted segments.
pub open spec fn counted_listed(
    index: Map<Seq<char>, Seq<Seq<char>>>,
    refs: Map<Seq<char>, Map<Seq<char>, u32>>,
) -> bool {
    forall|zone: Seq<char>| lists(#[trigger] list_at(index, zone), counts_of(refs, zone).dom())
}

impl AppData {
    /// Every index is what the authoritative records make it.
    pub open spec fn well_formed(self) -> bool {
        &&& routers_indexed(self.indexes.routers_by_zone@, self@.routers)
        &&& bridges_indexed(self.indexes.bridges_by_zone_shard@, self@.bridges)
        &&& nodes_indexed(self.indexes.nodes_by_shard@, self@.nodes)
        &&& owners_counted(self.indexes.segment_refs_by_zone@, self@.shards)
        &&& counted_listed(self.indexes.segments_by_zone@, self.indexes.segment_refs_by_zone@)
    }
}

/// Rebuilds the router index of one zone.
pub fn rebuild_zone_routers(data: &mut AppData, zone_id: &str)
    ensures
        final(data)@ == old(data)@,
        entry_lists(final(data).indexes.routers_by_zone@, zone_id@, routers_in(old(data)@.routers, zone_id@)),
        final(data).indexes.routers_by_zone@.remove(zone_id@) == old(data).indexes.routers_by_zone@.remove(zone_id@),
        *final(data) == (AppData {
            indexes: Indexes { routers_by_zone: final(data).indexes.routers_by_zone, ..old(data).indexes },
            ..*old(data)
        }),
{
    let ghost m = data@.routers;
    let ghost group = routers_in(m, zone_id@);
    let zone: String = zone_id.to_owned();
    let mut routers = NameList::new();
    let n: usize = data.components.routers.len();
    let ghost q = data.components.routers.key_seq();
    assert(group.intersect(q.take(0).to_set()) =~= Set::<Seq<char>>::empty());
    for i in 0..n
        invariant
            n == q.len(),
            q == data.components.routers.key_seq(),
            m == data.components.routers@,
            zone@ == zone_id@,
            group == routers_in(m, zone_id@),
            lists(routers@, group.intersect(q.take(i as int).to_set())),
            *data == *old(data),
    {
        let ghost before = routers@.to_set();
        let info = data.components.routers.value_at(i);
        proof {
            lemma_prefix_set(q, i as int);
        }
        if info.zone_id == zone {
            routers.insert(data.components.routers.key_at(i).clone());
            assert(group.contains(q[i as int]));
            assert(before.insert(q[i as int]) =~= group.intersect(q.take(i + 1).to_set()));
        } else {
            assert(!group.contains(q[i as int]));
            assert(before =~= group.intersect(q.take(i + 1).to_set()));
        }
    }
    assert(q.take(n as int) =~= q);
    assert(group.intersect(q.to_set()) =~= group);
    if routers.len() == 0 {
        proof {
            assert(routers@.to_set() =~= Set::<Seq<char>>::empty());
        }
        data.indexes.routers_by_zone.remove(zone_id);
        assert(routers@ =~= Seq::<Seq<char>>::empty());
    } else {
        assert(routers@.to_set().contains(routers@[0]));
        data.indexes.routers_by_zone.insert(zone, routers.to_vec());
    }
    assert(data.indexes.routers_by_zone@.remove(zone_id@) =~= old(data).indexes.routers_by_zone@.remove(zone_id@));
}

/// Rebuilds the node index of one shard.
pub fn rebuild_shard_nodes(data: &mut AppData, shard_id: &str)
    ensures
        final(data)@ == old(data)@,
        entry_lists(final(data).indexes.nodes_by_shard@, shard_id@, nodes_in(old(data)@.nodes, shard_id@)),
        final(data).indexes.nodes_by_shard@.remove(shard_id@) == old(data).indexes.nodes_by_shard@.remove(shard_id@),
        *final(data) == (AppData {
            indexes: Indexes { nodes_by_shard: final(data).indexes.nodes_by_shard, ..old(data).indexes },
            ..*old(data)
        }),
{
    let ghost m = data@.nodes;
    let ghost group = nodes_in(m, shard_id@);
    let shard: String = shard_id.to_owned();
    let mut nodes = NameList::new();
    let n: usize = data.components.nodes.len();
    let ghost q = data.components.nodes.key_seq();
    assert(group.intersect(q.take(0).to_set()) =~= Set::<Seq<char>>::empty());
    for i in 0..n
        invariant
            n == q.len(),
            q == data.components.nodes.key_seq(),
            m == data.components.nodes@,
            shard@ == shard_id@,
            group == nodes_in(m, shard_id@),
            lists(nodes@, group.intersect(q.take(i as int).to_set())),
            *data == *old(data),
    {
        let ghost before = nodes@.to_set();
        let info = data.components.nodes.value_at(i);
        proof {
            lemma_prefix_set(q, i as int);
        }
        if info.shard_id == shard {
            nodes.insert(data.components.nodes.key_at(i).clone());
            assert(group.contains(q[i as int]));
            assert(before.insert(q[i as int]) =~= group.intersect(q.take(i + 1).to_set()));
        } else {
            assert(!group.contains(q[i as int]));
            assert(before =~= group.intersect(q.take(i + 1).to_set()));
        }
    }
    assert(q.take(n as int) =~= q);
    assert(group.intersect(q.to_set()) =~= group);
    if nodes.len() == 0 {
        proof {
            assert(nodes@.to_set() =~= Set::<Seq<char>>::empty());
        }
        data.indexes.nodes_by_shard.remove(shard_id);
        assert(nodes@ =~= Seq::<Seq<char>>::empty());
    } else {
        assert(nodes@.to_set().contains(nodes@[0]));
        data.indexes.nodes_by_shard.insert(shard, nodes.to_vec());
    }
    assert(data.indexes.nodes_by_shard@.remove(shard_id@) =~= old(data).indexes.nodes_by_shard@.remove(shard_id@));
}

/// Adding one member to one group: the index of the groups restricted to a
/// prefix stays right.
pub proof fn lemma_group_step(
    before: Map<Seq<char>, Seq<Seq<char>>>,
    after: Map<Seq<char>, Seq<Seq<char>>>,
    key: Seq<char>,
    other: Seq<char>,
    group: Set<Seq<char>>,
    seen: Set<Seq<char>>,
    name: Seq<char>,
)
    requires
        after == before.insert(key, list_at(after, key)),
        lists(list_at(after, key), list_at(before, key).to_set().insert(name)),
        entry_lists(before, other, group.intersect(seen)),
        group.contains(name) <==> key == other,
    ensures
        entry_lists(after, other, group.intersect(seen.insert(name))),
{
    let now = group.intersect(seen.insert(name));
    if key == other {
        assert(now =~= group.intersect(seen).insert(name));
        assert(now.contains(name));
    } else {
        assert(now =~= group.intersect(seen));
    }
}

/// The mapping of a zone, as far as the bridges in `seen` go.
pub open spec fn mapping_of(
    mapping: Map<Seq<char>, Seq<Seq<char>>>,
    bridges: Map<Seq<char>, BridgeView>,
    zone: Seq<char>,
    seen: Set<Seq<char>>,
) -> bool {
    forall|shard: Seq<char>| #[trigger] entry_lists(mapping, shard, bridges_in(bridges, zone, shard).intersect(seen))
}

/// Nothing is mapped when nothing was seen.
pub proof fn lemma_mapping_empty(bridges: Map<Seq<char>, BridgeView>, zone: Seq<char>)
    ensures
        mapping_of(Map::empty(), bridges, zone, Set::empty()),
{
    assert forall|shard: Seq<char>|
        #[trigger] entry_lists(Map::empty(), shard, bridges_in(bridges, zone, shard).intersect(Set::empty())) by {
        assert(bridges_in(bridges, zone, shard).intersect(Set::empty()) =~= Set::<Seq<char>>::empty());
        assert(Seq::<Seq<char>>::empty().to_set() =~= Set::<Seq<char>>::empty());
    }
}

/// One more bridge of the zone is put under its shard.
pub proof fn lemma_mapping_step(
    before: Map<Seq<char>, Seq<Seq<char>>>,
    after: Map<Seq<char>, Seq<Seq<char>>>,
    bridges: Map<Seq<char>, BridgeView>,
    zone: Seq<char>,
    seen: Set<Seq<char>>,
    id: Seq<char>,
)
    requires
        mapping_of(before, bridges, zone, seen),
        bridges.contains_key(id),
        bridges[id].zone == zone,
        after == before.insert(bridges[id].shard, list_at(after, bridges[id].shard)),
        lists(list_at(after, bridges[id].shard), list_at(before, bridges[id].shard).to_set().insert(id)),
    ensures
        mapping_of(after, bridges, zone, seen.insert(id)),
{
    assert forall|shard: Seq<char>|
        #[trigger] entry_lists(after, shard, bridges_in(bridges, zone, shard).intersect(seen.insert(id))) by {
        assert(entry_lists(before, shard, bridges_in(bridges, zone, shard).intersect(seen)));
        lemma_group_step(before, after, bridges[id].shard, shard, bridges_in(bridges, zone, shard), seen, id);
    }
}

/// A bridge of another zone leaves the mapping as it is.
pub proof fn lemma_mapping_skip(
    mapping: Map<Seq<char>, Seq<Seq<char>>>,
    bridges: Map<Seq<char>, BridgeView>,
    zone: Seq<char>,
    seen: Set<Seq<char>>,
    id: Seq<char>,
)
    requires
        mapping_of(mapping, bridges, zone, seen),
        bridges.contains_key(id) ==> bridges[id].zone != zone,
    ensures
        mapping_of(mapping, bridges, zone, seen.insert(id)),
{
    assert forall|shard: Seq<char>|
        #[trigger] entry_lists(mapping, shard, bridges_in(bridges, zone, shard).intersect(seen.insert(id))) by {
        assert(entry_lists(mapping, shard, bridges_in(bridges, zone, shard).intersect(seen)));
        assert(bridges_in(bridges, zone, shard).intersect(seen.insert(id)) =~= bridges_in(bridges, zone, shard).intersect(
            seen,
        ));
    }
}

/// Once every bridge was seen, the mapping is right.
pub proof fn lemma_mapping_done(mapping: Map<Seq<char>, Seq<Seq<char>>>, bridges: Map<Seq<char>, BridgeView>, zone: Seq<char>)
    requires
        mapping_of(mapping, bridges, zone, bridges.dom()),
    ensures
        forall|shard: Seq<char>| #[trigger] entry_lists(mapping, shard, bridges_in(bridges, zone, shard)),
        mapping.dom() == shards_in(bridges, zone),
{
    assert forall|shard: Seq<char>| #[trigger] entry_lists(mapping, shard, bridges_in(bridges, zone, shard)) by {
        assert(entry_lists(mapping, shard, bridges_in(bridges, zone, shard).intersect(bridges.dom())));
        assert(bridges_in(bridges, zone, shard).intersect(bridges.dom()) =~= bridges_in(bridges, zone, shard));
    }
    lemma_mapping_domain(mapping, bridges, zone);
}

/// Rebuilds the bridge index of one zone.
pub fn rebuild_zone_shards(data: &mut AppData, zone_id: &str)
    ensures
        final(data)@ == old(data)@,
        zone_bridges_indexed(final(data).indexes.bridges_by_zone_shard@, old(data)@.bridges, zone_id@),
        final(data).indexes.bridges_by_zone_shard@.remove(zone_id@) == old(data).indexes.bridges_by_zone_shard@.remove(
            zone_id@,
        ),
        *final(data) == (AppData {
            indexes: Indexes { bridges_by_zone_shard: final(data).indexes.bridges_by_zone_shard, ..old(data).indexes },
            ..*old(data)
        }),
{
    let ghost m = data@.bridges;
    let zone: String = zone_id.to_owned();
    let mut shards: NameMap<Vec<BridgeId>> = NameMap::new();
    let n: usize = data.components.bridges.len();
    let ghost q = data.components.bridges.key_seq();
    proof {
        lemma_mapping_empty(m, zone_id@);
        assert(q.take(0).to_set() =~= Set::<Seq<char>>::empty());
    }
    for i in 0..n
        invariant
            n == q.len(),
            q == data.components.bridges.key_seq(),
            m == data.components.bridges@,
            zone@ == zone_id@,
            mapping_of(shards@, m, zone_id@, q.take(i as int).to_set()),
            *data == *old(data),
    {
        let ghost seen = q.take(i as int).to_set();
        let ghost before = shards@;
        let bridge = data.components.bridges.value_at(i);
        proof {
            lemma_prefix_set(q, i as int);
            assert(entry_lists(before, bridge.shard_id@, bridges_in(m, zone_id@, bridge.shard_id@).intersect(seen)));
        }
        if bridge.zone_id == zone {
            push_under(&mut shards, &bridge.shard_id, data.components.bridges.key_at(i));
            proof {
                lemma_mapping_step(before, shards@, m, zone_id@, seen, q[i as int]);
            }
        } else {
            proof {
                lemma_mapping_skip(before, m, zone_id@, seen, q[i as int]);
            }
        }
    }
    proof {
        assert(q.take(n as int) =~= q);
        lemma_mapping_done(shards@, m, zone_id@);
    }
    if shards.is_empty() {
        data.indexes.bridges_by_zone_shard.remove(zone_id);
        assert(shards@ =~= Map::<Seq<char>, Seq<Seq<char>>>::empty());
        assert(mapping_at(data.indexes.bridges_by_zone_shard@, zone_id@) == shards@);
    } else {
        let ghost mapping = shards@;
        data.indexes.bridges_by_zone_shard.insert(zone, shards);
        assert(mapping_at(data.indexes.bridges_by_zone_shard@, zone_id@) == mapping);
    }
    assert(data.indexes.bridges_by_zone_shard@.remove(zone_id@) =~= old(data).indexes.bridges_by_zone_shard@.remove(
        zone_id@,
    ));
}

/// The shards that a right mapping has are those that a bridge serves.
pub proof fn lemma_mapping_domain(
    mapping: Map<Seq<char>, Seq<Seq<char>>>,
    bridges: Map<Seq<char>, BridgeView>,
    zone: Seq<char>,
)
    requires
        forall|shard: Seq<char>| #[trigger] entry_lists(mapping, shard, bridges_in(bridges, zone, shard)),
    ensures
        mapping.dom() == shards_in(bridges, zone),
{
    assert forall|shard: Seq<char>| mapping.dom().contains(shard) <==> shards_in(bridges, zone).contains(shard) by {
        assert(entry_lists(mapping, shard, bridges_in(bridges, zone, shard)));
        let group = bridges_in(bridges, zone, shard);
        if group != Set::<Seq<char>>::empty() {
            let id = choose|id: Seq<char>| group.contains(id);
            if !exists|id: Seq<char>| group.contains(id) {
                assert(group =~= Set::<Seq<char>>::empty());
            }
            assert(group.contains(id));
        }
    }
    assert(mapping.dom() =~= shards_in(bridges, zone));
}

} // verus!
