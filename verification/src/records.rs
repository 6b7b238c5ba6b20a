//! The authoritative records: component registrations and segment ownership.

use vstd::prelude::*;

use crate::model::{
    counts_fit, lemma_listing, listing, BridgeView, NodeView, RegistryView, RouterView,
    ShardView,
};
use crate::names::{lists, Duplicate, NameList};
use crate::order::before;
use crate::segments::lemma_counts_fit;
use crate::table::NameMap;

verus! {

pub type RouterId = String;

pub type BridgeId = String;

pub type NodeId = String;

pub type ZoneId = String;

pub type ShardId = String;

pub type Segment = String;

pub type Version = u64;

/// The authoritative registration of a router.
#[derive(Debug, PartialEq, Eq)]
pub struct RouterInfo {
    pub zone_id: ZoneId,
    /// When the router was last heard of, in milliseconds.
    pub last_seen_ms: u64,
}

/// The authoritative registration of a bridge.
#[derive(Debug, PartialEq, Eq)]
pub struct BridgeInfo {
    pub shard_id: ShardId,
    pub zone_id: ZoneId,
    pub last_seen_ms: u64,
}

/// The authoritative registration of a node.
#[derive(Debug, PartialEq, Eq)]
pub struct NodeInfo {
    pub shard_id: ShardId,
    pub zone_id: ZoneId,
    pub last_seen_ms: u64,
}

impl DeepView for RouterInfo {
    type V = RouterView;

    open spec fn deep_view(&self) -> RouterView {
        RouterView { zone: self.zone_id@, last_seen: self.last_seen_ms }
    }
}

impl DeepView for BridgeInfo {
    type V = BridgeView;

    open spec fn deep_view(&self) -> BridgeView {
        BridgeView { shard: self.shard_id@, zone: self.zone_id@, last_seen: self.last_seen_ms }
    }
}

impl DeepView for NodeInfo {
    type V = NodeView;

    open spec fn deep_view(&self) -> NodeView {
        NodeView { shard: self.shard_id@, zone: self.zone_id@, last_seen: self.last_seen_ms }
    }
}

impl Duplicate for RouterInfo {
    fn duplicate(&self) -> (r: Self) {
        RouterInfo { zone_id: self.zone_id.clone(), last_seen_ms: self.last_seen_ms }
    }
}

impl Duplicate for BridgeInfo {
    fn duplicate(&self) -> (r: Self) {
        BridgeInfo { shard_id: self.shard_id.clone(), zone_id: self.zone_id.clone(), last_seen_ms: self.last_seen_ms }
    }
}

impl Duplicate for NodeInfo {
    fn duplicate(&self) -> (r: Self) {
        NodeInfo { shard_id: self.shard_id.clone(), zone_id: self.zone_id.clone(), last_seen_ms: self.last_seen_ms }
    }
}

impl Clone for RouterInfo {
    fn clone(&self) -> (r: Self)
        ensures
            r.deep_view() == self.deep_view(),
    {
        self.duplicate()
    }
}

impl Clone for BridgeInfo {
    fn clone(&self) -> (r: Self)
        ensures
            r.deep_view() == self.deep_view(),
    {
        self.duplicate()
    }
}

impl Clone for NodeInfo {
    fn clone(&self) -> (r: Self)
        ensures
            r.deep_view() == self.deep_view(),
    {
        self.duplicate()
    }
}

/// All component registrations.
#[derive(Debug, PartialEq, Eq)]
pub struct Components {
    pub routers: NameMap<RouterInfo>,
    pub bridges: NameMap<BridgeInfo>,
    pub nodes: NameMap<NodeInfo>,
}

impl Components {
    /// No registration at all.
    pub fn new() -> (r: Self)
        ensures
            r.routers@ == Map::<Seq<char>, RouterView>::empty(),
            r.bridges@ == Map::<Seq<char>, BridgeView>::empty(),
            r.nodes@ == Map::<Seq<char>, NodeView>::empty(),
    {
        Components { routers: NameMap::new(), bridges: NameMap::new(), nodes: NameMap::new() }
    }
}

/// A shard's segments, both as a set and as the list that is handed out.
#[derive(Debug, PartialEq, Eq)]
pub struct SegmentSet {
    /// Used for equality and membership.
    pub set: NameList,
    /// Used for responses.
    pub sorted: Vec<Segment>,
}

impl SegmentSet {
    /// The normalized form of a segment list: sorted, without repetition.
    pub fn new(segments: Vec<Segment>) -> (r: Self)
        ensures
            lists(r.set@, segments.deep_view().to_set()),
            r.sorted.deep_view() == listing(segments.deep_view().to_set()),
            r.sorted.deep_view() == r.set@,
            forall|segment: Seq<char>| #[trigger]
                r.set@.contains(segment) <==> segments.deep_view().contains(segment),
            forall|segment: Seq<char>| #[trigger]
                r.sorted.deep_view().contains(segment) <==> segments.deep_view().contains(segment),
            forall|i: int, j: int|
                0 <= i < j < r.sorted@.len() ==> before(
                    #[trigger] r.sorted.deep_view()[i],
                    #[trigger] r.sorted.deep_view()[j],
                ),
    {
        let set = NameList::from_vec(&segments);
        proof {
            lemma_listing(set@, segments.deep_view().to_set());
        }
        let sorted = set.to_vec();
        proof {
            assert forall|segment: Seq<char>| #[trigger]
                set@.contains(segment) <==> segments.deep_view().contains(segment) by {
                assert(set@.to_set().contains(segment) == segments.deep_view().to_set().contains(segment));
            }
        }
        SegmentSet { set, sorted }
    }

    /// Whether two segment sets hold exactly the same segments.
    pub fn same_contents(&self, other: &Self) -> (r: bool)
        ensures
            r <==> self.set@.to_set() == other.set@.to_set(),
    {
        self.set.same(&other.set)
    }
}

/// The authoritative segment ownership of one shard.
#[derive(Debug, PartialEq, Eq)]
pub struct ShardSegments {
    pub zone_id: ZoneId,
    pub segments: SegmentSet,
}

impl DeepView for ShardSegments {
    type V = ShardView;

    open spec fn deep_view(&self) -> ShardView {
        ShardView {
            zone: self.zone_id@,
            set: self.segments.set@.to_set(),
            sorted: self.segments.sorted.deep_view(),
        }
    }
}

impl Duplicate for ShardSegments {
    fn duplicate(&self) -> (r: Self) {
        ShardSegments {
            zone_id: self.zone_id.clone(),
            segments: SegmentSet { set: self.segments.set.duplicate(), sorted: self.segments.sorted.duplicate() },
        }
    }
}

/// Segment ownership by shard.
#[derive(Debug, PartialEq, Eq)]
pub struct SegmentStore {
    pub by_shard: NameMap<ShardSegments>,
}

/// What is kept across restarts: the authoritative records and the versions.
/// The derived indexes are rebuilt from them.
#[derive(Debug, PartialEq, Eq)]
pub struct PersistedState {
    pub components: Components,
    pub segments: SegmentStore,
    /// Dataset key to version.
    pub versions: NameMap<Version>,
    /// Counts every externally visible change.
    pub global_version: Version,
}

impl View for PersistedState {
    type V = RegistryView;

    open spec fn view(&self) -> RegistryView {
        RegistryView {
            routers: self.components.routers@,
            bridges: self.components.bridges@,
            nodes: self.components.nodes@,
            shards: self.segments.by_shard@,
            versions: self.versions@,
            global_version: self.global_version,
        }
    }
}

impl PersistedState {
    /// The number of shards that have published segments. Where 32 bits can
    /// count them, they can count the owners of every segment.
    pub fn shard_count(&self) -> (r: usize)
        ensures
            r == self@.shards.dom().len(),
            r <= u32::MAX ==> counts_fit(self@.shards),
    {
        let n: usize = self.segments.by_shard.len();
        proof {
            if n <= u32::MAX {
                lemma_counts_fit(self@.shards);
            }
        }
        n
    }
}

/// Every dataset version in one answer.
#[derive(Debug, PartialEq, Eq)]
pub struct VersionManifest {
    pub global_version: Version,
    /// For example `zones/eu/routers` to 17, `shards/a/nodes` to 12.
    pub versions: NameMap<Version>,
}

impl Clone for VersionManifest {
    fn clone(&self) -> (r: Self)
        ensures
            r.global_version == self.global_version,
            r.versions@ == self.versions@,
    {
        VersionManifest { global_version: self.global_version, versions: self.versions.duplicate() }
    }
}

} // verus!
