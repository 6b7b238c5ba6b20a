//! The state of the service: the directory, the configuration that bears on
//! it, and what of it still has to be written down.

use vstd::prelude::*;

use crate::change::{
    change_keys, changed, finitely_many, law_room_admits_every_change, lemma_swept_places,
    possible, roomy, Change,
};
use crate::codecs::{Codecs, CodecsView};
use crate::effects::{
    law_bridge_registration, law_node_registration, law_restart, law_router_registration,
    law_segment_publication, law_sweep, law_zone_segments_are_owned,
};
use crate::error::RzError;
use crate::index::{entry_lists, list_at, mapping_at, zone_bridges_indexed, AppData, Indexes};
use crate::keys::{
    key_of, shard_nodes_key, shard_segments_key, zone_routers_key, zone_segments_key,
    zone_shards_key, Dataset,
};
use crate::model::{
    bridges_in, counts_fit, empty_registry, expired_bridges, expired_nodes, expired_routers,
    law_every_finite_set_is_listed, lemma_listing, listing, nodes_in, refreshed, router_zones,
    routers_in, segments_in, shard_mapping, shards_in, started, sweep_keys, swept_bridge_zones,
    swept_node_shards, swept_router_zones, timeout_of, version, BridgeView, NodeView,
    RegistryView, RouterView,
};
use crate::names::{law_listing_is_sorted_and_complete, lists, Duplicate};
use crate::order::before;
use crate::rebuild::rebuild_indexes;
use crate::records::{
    BridgeId, Components, NodeId, PersistedState, RouterId, Segment, SegmentStore, ShardId,
    ShardSegments, Version, VersionManifest, ZoneId,
};
use crate::registry;
use crate::segments::{lemma_counted_fits, lemma_counts_fit, zone_segment_list};
use crate::sweep;
use crate::sweep::{reset_heartbeat_times, Swept};
use crate::table::NameMap;

verus! {

/// What the state of the service is.
#[verifier::ext_equal]
pub struct AppView {
    /// The directory.
    pub registry: RegistryView,
    /// How long a component lives without a heartbeat.
    pub timeout_ms: u64,
    /// How long changes may wait before they are written down.
    pub buffer_ms: u64,
    /// The codecs configuration that is handed out.
    pub codecs: CodecsView,
    /// Something changed since the last snapshot was taken.
    pub dirty: bool,
    /// A snapshot was taken and is not known to be written.
    pub saving: bool,
}

/// The directory that a start finds in the state file, if it finds one that
/// can be read.
pub open spec fn readable(kept: Option<Result<PersistedState, RzError>>) -> Option<RegistryView> {
    match kept {
        Some(Ok(p)) => Some(p@),
        _ => None,
    }
}

/// The state after a change of the directory. What no query can tell from
/// before does not have to be written down.
pub open spec fn after(a: AppView, c: Change) -> AppView {
    AppView {
        registry: changed(a.registry, c),
        dirty: a.dirty || change_keys(a.registry, c).len() > 0,
        ..a
    }
}

/// There is something to be written down.
pub open spec fn unsaved(a: AppView) -> bool {
    a.dirty || a.saving
}

/// The state after a snapshot was taken to be written down.
pub open spec fn snapshot_taken(a: AppView) -> AppView {
    AppView { dirty: false, saving: true, ..a }
}

/// The state after the write of a snapshot ended, with or without success.
pub open spec fn write_ended(a: AppView, written: bool) -> AppView {
    AppView { dirty: a.dirty || !written, saving: false, ..a }
}

/// The source of truth of the service.
#[derive(Debug)]
pub struct AppState {
    data: AppData,
    heartbeat_timeout_ms: u64,
    buffer_ms: u64,
    codecs: Codecs,
    dirty: bool,
    saving: bool,
}

impl View for AppState {
    type V = AppView;

    closed spec fn view(&self) -> AppView {
        AppView {
            registry: self.data@,
            timeout_ms: self.heartbeat_timeout_ms,
            buffer_ms: self.buffer_ms,
            codecs: self.codecs@,
            dirty: self.dirty,
            saving: self.saving,
        }
    }
}

/// The numbers of registered components.
#[derive(Debug, Clone, Copy, PartialEq, Eq)]
pub struct ComponentCounts {
    pub routers: usize,
    pub bridges: usize,
    pub nodes: usize,
    /// The zones that have a router.
    pub zones: usize,
}

/// A runtime state that holds nothing.
fn empty_data() -> (r: AppData)
    ensures
        r@ == empty_registry(),
        r.well_formed(),
{
    let mut data = AppData {
        components: Components::new(),
        segments: SegmentStore { by_shard: NameMap::new() },
        indexes: Indexes::new(),
        versions: NameMap::new(),
        global_version: 0,
    };
    proof {
        lemma_counts_fit(data@.shards);
    }
    rebuild_indexes(&mut data);
    data
}

impl AppState {
    /// Every index is what the records make it.
    #[verifier::type_invariant]
    spec fn indexed(self) -> bool {
        self.data.well_formed()
    }

    /// Starts from the state that was kept: `None` where there is no state
    /// file. One that could not be read counts as none. The age of a heartbeat
    /// that was written down says nothing: every component counts as just
    /// heard of.
    pub fn new(
        kept: Option<Result<PersistedState, RzError>>,
        heartbeat_timeout_secs: u64,
        buffer_ms: u64,
        codecs: Codecs,
        now: u64,
    ) -> (r: Self)
        requires
            readable(kept) matches Some(v) ==> counts_fit(v.shards),
        ensures
            r@ == (AppView {
                registry: started(readable(kept), now),
                timeout_ms: timeout_of(heartbeat_timeout_secs),
                buffer_ms,
                codecs: codecs@,
                dirty: false,
                saving: false,
            }),
            r@.timeout_ms == if heartbeat_timeout_secs * 1000 > u64::MAX {
                u64::MAX as int
            } else {
                heartbeat_timeout_secs * 1000
            },
            r@.buffer_ms == buffer_ms,
            r@.codecs == codecs@,
            !r@.dirty && !r@.saving,
            kept matches Some(Ok(p)) ==> {
                &&& r@.registry.routers.dom() == p.components.routers@.dom()
                &&& r@.registry.bridges.dom() == p.components.bridges@.dom()
                &&& r@.registry.nodes.dom() == p.components.nodes@.dom()
                &&& forall|id: Seq<char>|
                    p.components.routers@.contains_key(id) ==> #[trigger] r@.registry.routers[id] == (RouterView {
                        zone: p.components.routers@[id].zone,
                        last_seen: now,
                    })
                &&& forall|id: Seq<char>|
                    p.components.bridges@.contains_key(id) ==> #[trigger] r@.registry.bridges[id] == (BridgeView {
                        shard: p.components.bridges@[id].shard,
                        zone: p.components.bridges@[id].zone,
                        last_seen: now,
                    })
                &&& forall|id: Seq<char>|
                    p.components.nodes@.contains_key(id) ==> #[trigger] r@.registry.nodes[id] == (NodeView {
                        shard: p.components.nodes@[id].shard,
                        zone: p.components.nodes@[id].zone,
                        last_seen: now,
                    })
                &&& r@.registry.shards == p.segments.by_shard@
                &&& r@.registry.versions == p.versions@
                &&& r@.registry.global_version == p.global_version
            },
            !(kept matches Some(Ok(_))) ==> {
                &&& r@.registry.routers.dom() == Set::<Seq<char>>::empty()
                &&& r@.registry.bridges.dom() == Set::<Seq<char>>::empty()
                &&& r@.registry.nodes.dom() == Set::<Seq<char>>::empty()
                &&& r@.registry.shards.dom() == Set::<Seq<char>>::empty()
                &&& r@.registry.versions.dom() == Set::<Seq<char>>::empty()
                &&& r@.registry.global_version == 0
            },
    {
        let data = match kept {
            Some(Ok(p)) => {
                let mut data = AppData {
                    components: p.components,
                    segments: p.segments,
                    indexes: Indexes::new(),
                    versions: p.versions,
                    global_version: p.global_version,
                };
                reset_heartbeat_times(&mut data.components, now);
                assert(data@ =~= refreshed(p@, now));
                rebuild_indexes(&mut data);
                data
            },
            Some(Err(_)) => empty_data(),
            None => empty_data(),
        };
        let heartbeat_timeout_ms: u64 = if heartbeat_timeout_secs > u64::MAX / 1000 {
            u64::MAX
        } else {
            heartbeat_timeout_secs * 1000
        };
        proof {
            match readable(kept) {
                Some(v) => law_restart(v, now),
                None => law_restart(empty_registry(), now),
            }
        }
        AppState {
            data,
            heartbeat_timeout_ms,
            buffer_ms,
            codecs,
            dirty: false,
            saving: false,
        }
    }

    // ------------------------------------------------------------------------
    // Registration
    // ------------------------------------------------------------------------

    /// Registers or refreshes a router; tells whether a dataset changed.
    pub fn register_router(&mut self, id: RouterId, zone_id: ZoneId, now: u64) -> (r: bool)
        requires
            possible(old(self)@.registry, (Change::Router { id: id@, zone: zone_id@, now })),
        ensures
            r <==> change_keys(old(self)@.registry, (Change::Router { id: id@, zone: zone_id@, now })).len() > 0,
            final(self)@ == after(old(self)@, (Change::Router { id: id@, zone: zone_id@, now })),
            r <==> !old(self)@.registry.routers.contains_key(id@) || old(self)@.registry.routers[id@].zone != zone_id@,
            final(self)@.registry.routers == old(self)@.registry.routers.insert(
                id@,
                (RouterView { zone: zone_id@, last_seen: now }),
            ),
            final(self)@.registry.bridges == old(self)@.registry.bridges,
            final(self)@.registry.nodes == old(self)@.registry.nodes,
            final(self)@.registry.shards == old(self)@.registry.shards,
            final(self)@.dirty <==> old(self)@.dirty || r,
            final(self)@.saving == old(self)@.saving,
            final(self)@.timeout_ms == old(self)@.timeout_ms,
            final(self)@.buffer_ms == old(self)@.buffer_ms,
            final(self)@.codecs == old(self)@.codecs,
    {
        proof {
            use_type_invariant(&*self);
        }
        let mut data = empty_data();
        std::mem::swap(&mut data, &mut self.data);
        proof {
            law_router_registration(old(self)@, id@, zone_id@, now);
        }
        let changed = registry::register_router(&mut data, id, zone_id, now);
        self.data = data;
        self.dirty = self.dirty || changed;
        changed
    }

    /// Registers or refreshes a bridge; tells whether a dataset changed.
    pub fn register_bridge(&mut self, id: BridgeId, shard_id: ShardId, zone_id: ZoneId, now: u64) -> (r: bool)
        requires
            possible(old(self)@.registry, (Change::Bridge { id: id@, shard: shard_id@, zone: zone_id@, now })),
        ensures
            r <==> change_keys(old(self)@.registry, (Change::Bridge { id: id@, shard: shard_id@, zone: zone_id@, now })).len() > 0,
            final(self)@ == after(old(self)@, (Change::Bridge { id: id@, shard: shard_id@, zone: zone_id@, now })),
            r <==> !old(self)@.registry.bridges.contains_key(id@) || old(self)@.registry.bridges[id@].zone != zone_id@
                || old(self)@.registry.bridges[id@].shard != shard_id@,
            final(self)@.registry.bridges == old(self)@.registry.bridges.insert(
                id@,
                (BridgeView { shard: shard_id@, zone: zone_id@, last_seen: now }),
            ),
            final(self)@.registry.routers == old(self)@.registry.routers,
            final(self)@.registry.nodes == old(self)@.registry.nodes,
            final(self)@.registry.shards == old(self)@.registry.shards,
            final(self)@.dirty <==> old(self)@.dirty || r,
            final(self)@.saving == old(self)@.saving,
            final(self)@.timeout_ms == old(self)@.timeout_ms,
            final(self)@.buffer_ms == old(self)@.buffer_ms,
            final(self)@.codecs == old(self)@.codecs,
    {
        proof {
            use_type_invariant(&*self);
        }
        let mut data = empty_data();
        std::mem::swap(&mut data, &mut self.data);
        proof {
            law_bridge_registration(old(self)@, id@, shard_id@, zone_id@, now);
        }
        let changed = registry::register_bridge(&mut data, id, shard_id, zone_id, now);
        self.data = data;
        self.dirty = self.dirty || changed;
        changed
    }

    /// Registers or refreshes a node; tells whether a dataset changed.
    pub fn register_node(&mut self, id: NodeId, shard_id: ShardId, zone_id: ZoneId, now: u64) -> (r: bool)
        requires
            possible(old(self)@.registry, (Change::Node { id: id@, shard: shard_id@, zone: zone_id@, now })),
        ensures
            r <==> change_keys(old(self)@.registry, (Change::Node { id: id@, shard: shard_id@, zone: zone_id@, now })).len() > 0,
            final(self)@ == after(old(self)@, (Change::Node { id: id@, shard: shard_id@, zone: zone_id@, now })),
            r <==> !old(self)@.registry.nodes.contains_key(id@) || old(self)@.registry.nodes[id@].shard != shard_id@,
            final(self)@.registry.nodes == old(self)@.registry.nodes.insert(
                id@,
                (NodeView { shard: shard_id@, zone: zone_id@, last_seen: now }),
            ),
            final(self)@.registry.routers == old(self)@.registry.routers,
            final(self)@.registry.bridges == old(self)@.registry.bridges,
            final(self)@.registry.shards == old(self)@.registry.shards,
            final(self)@.dirty <==> old(self)@.dirty || r,
            final(self)@.saving == old(self)@.saving,
            final(self)@.timeout_ms == old(self)@.timeout_ms,
            final(self)@.buffer_ms == old(self)@.buffer_ms,
            final(self)@.codecs == old(self)@.codecs,
    {
        proof {
            use_type_invariant(&*self);
        }
        let mut data = empty_data();
        std::mem::swap(&mut data, &mut self.data);
        proof {
            law_node_registration(old(self)@, id@, shard_id@, zone_id@, now);
        }
        let changed = registry::register_node(&mut data, id, shard_id, zone_id, now);
        self.data = data;
        self.dirty = self.dirty || changed;
        changed
    }

    // ------------------------------------------------------------------------
    // Segment ownership
    // ------------------------------------------------------------------------

    /// Replaces a shard's segment ownership; tells whether anything changed.
    pub fn update_segments(&mut self, shard_id: ShardId, zone_id: ZoneId, segments: Vec<Segment>) -> (r: bool)
        requires
            possible(old(self)@.registry, (Change::Segments { shard: shard_id@, zone: zone_id@, set: segments.deep_view().to_set() })),
        ensures
            r <==> change_keys(old(self)@.registry, (Change::Segments { shard: shard_id@, zone: zone_id@, set: segments.deep_view().to_set() })).len() > 0,
            final(self)@ == after(old(self)@, (Change::Segments { shard: shard_id@, zone: zone_id@, set: segments.deep_view().to_set() })),
            !r <==> old(self)@.registry.shards.contains_key(shard_id@) && old(self)@.registry.shards[shard_id@].zone
                == zone_id@ && old(self)@.registry.shards[shard_id@].set == segments.deep_view().to_set(),
            !r ==> final(self)@ == old(self)@,
            final(self)@.registry.shards.dom() == old(self)@.registry.shards.dom().insert(shard_id@),
            final(self)@.registry.shards[shard_id@].zone == zone_id@,
            forall|segment: Seq<char>| #[trigger]
                final(self)@.registry.shards[shard_id@].set.contains(segment) <==> segments.deep_view().contains(segment),
            r ==> forall|segment: Seq<char>| #[trigger]
                final(self)@.registry.shards[shard_id@].sorted.contains(segment) <==> segments.deep_view().contains(
                    segment,
                ),
            r ==> forall|i: int, j: int|
                0 <= i < j < final(self)@.registry.shards[shard_id@].sorted.len() ==> before(
                    #[trigger] final(self)@.registry.shards[shard_id@].sorted[i],
                    #[trigger] final(self)@.registry.shards[shard_id@].sorted[j],
                ),
            forall|s: Seq<char>|
                s != shard_id@ && old(self)@.registry.shards.contains_key(s) ==> #[trigger] final(self)@.registry.shards[s]
                    == old(self)@.registry.shards[s],
            final(self)@.registry.routers == old(self)@.registry.routers,
            final(self)@.registry.bridges == old(self)@.registry.bridges,
            final(self)@.registry.nodes == old(self)@.registry.nodes,
            final(self)@.dirty <==> old(self)@.dirty || r,
            final(self)@.saving == old(self)@.saving,
            final(self)@.timeout_ms == old(self)@.timeout_ms,
            final(self)@.buffer_ms == old(self)@.buffer_ms,
            final(self)@.codecs == old(self)@.codecs,
    {
        proof {
            use_type_invariant(&*self);
        }
        let mut data = empty_data();
        std::mem::swap(&mut data, &mut self.data);
        proof {
            let set = segments.deep_view().to_set();
            law_segment_publication(old(self)@, shard_id@, zone_id@, set);
            vstd::seq_lib::seq_to_set_is_finite(segments.deep_view());
            law_every_finite_set_is_listed(set);
            assert forall|segment: Seq<char>| #[trigger]
                set.contains(segment) <==> segments.deep_view().contains(segment) by {}
        }
        let changed = registry::update_segments(&mut data, shard_id, zone_id, segments);
        self.data = data;
        self.dirty = self.dirty || changed;
        changed
    }

    // ------------------------------------------------------------------------
    // Queries
    // ------------------------------------------------------------------------

    /// Every dataset version.
    pub fn version_manifest(&self) -> (r: VersionManifest)
        ensures
            r.global_version == self@.registry.global_version,
            r.versions@ == self@.registry.versions,
    {
        VersionManifest { global_version: self.data.global_version, versions: self.data.versions.duplicate() }
    }

    /// The routers of a zone.
    pub fn zone_routers(&self, zone_id: &str) -> (r: (Version, Vec<RouterId>))
        ensures
            r.0 == version(self@.registry.versions, key_of(Dataset::ZoneRouters(zone_id@))),
            r.1.deep_view() == listing(routers_in(self@.registry.routers, zone_id@)),
            lists(r.1.deep_view(), routers_in(self@.registry.routers, zone_id@)),
            r.0 == version(self@.registry.versions, "zones/"@ + zone_id@ + "/routers"@),
            forall|id: Seq<char>| #[trigger]
                r.1.deep_view().contains(id) <==> self@.registry.routers.contains_key(id)
                    && self@.registry.routers[id].zone == zone_id@,
            forall|i: int, j: int|
                0 <= i < j < r.1.deep_view().len() ==> before(#[trigger] r.1.deep_view()[i], #[trigger] r.1.deep_view()[j]),
    {
        proof {
            use_type_invariant(self);
            let index = self.data.indexes.routers_by_zone@;
            let group = routers_in(self.data@.routers, zone_id@);
            assert(entry_lists(index, zone_id@, group));
            lemma_listing(list_at(index, zone_id@), group);
        }
        let held: Version = registry::get_version(&self.data, zone_routers_key(zone_id).as_str());
        let routers: Vec<RouterId> = match self.data.indexes.routers_by_zone.get(zone_id) {
            Some(routers) => routers.duplicate(),
            None => Vec::new(),
        };
        assert(routers.deep_view() =~= list_at(self.data.indexes.routers_by_zone@, zone_id@));
        proof {
            law_listing_is_sorted_and_complete(routers.deep_view(), routers_in(self@.registry.routers, zone_id@));
        }
        (held, routers)
    }

    /// The distinct segments that some shard of a zone owns.
    pub fn zone_segments(&self, zone_id: &str) -> (r: (Version, Vec<Segment>))
        ensures
            r.0 == version(self@.registry.versions, key_of(Dataset::ZoneSegments(zone_id@))),
            r.1.deep_view() == listing(segments_in(self@.registry.shards, zone_id@)),
            lists(r.1.deep_view(), segments_in(self@.registry.shards, zone_id@)),
            r.0 == version(self@.registry.versions, "zones/"@ + zone_id@ + "/segments"@),
            forall|segment: Seq<char>| #[trigger]
                r.1.deep_view().contains(segment) <==> exists|s: Seq<char>| #[trigger]
                    self@.registry.shards.contains_key(s) && self@.registry.shards[s].zone == zone_id@
                        && self@.registry.shards[s].set.contains(segment),
            forall|i: int, j: int|
                0 <= i < j < r.1.deep_view().len() ==> before(#[trigger] r.1.deep_view()[i], #[trigger] r.1.deep_view()[j]),
    {
        proof {
            use_type_invariant(self);
        }
        let held: Version = registry::get_version(&self.data, zone_segments_key(zone_id).as_str());
        let segments: Vec<Segment> = zone_segment_list(&self.data, zone_id);
        proof {
            law_listing_is_sorted_and_complete(segments.deep_view(), segments_in(self@.registry.shards, zone_id@));
            law_zone_segments_are_owned(self@.registry.shards, zone_id@);
        }
        (held, segments)
    }

    /// The shards of a zone and the bridges that serve each.
    pub fn zone_shards(&self, zone_id: &str) -> (r: (Version, NameMap<Vec<BridgeId>>))
        ensures
            r.0 == version(self@.registry.versions, key_of(Dataset::ZoneShards(zone_id@))),
            r.1@ == shard_mapping(self@.registry.bridges, zone_id@),
            forall|shard: Seq<char>| #[trigger]
                r.1@.contains_key(shard) ==> lists(r.1@[shard], bridges_in(self@.registry.bridges, zone_id@, shard)),
            r.0 == version(self@.registry.versions, "zones/"@ + zone_id@ + "/shards"@),
            forall|shard: Seq<char>| #[trigger]
                r.1@.contains_key(shard) <==> exists|id: Seq<char>| #[trigger]
                    self@.registry.bridges.contains_key(id) && self@.registry.bridges[id].zone == zone_id@
                        && self@.registry.bridges[id].shard == shard,
            forall|shard: Seq<char>, id: Seq<char>|
                r.1@.contains_key(shard) ==> (#[trigger] r.1@[shard].contains(id)
                    <==> self@.registry.bridges.contains_key(id) && self@.registry.bridges[id].zone == zone_id@
                    && self@.registry.bridges[id].shard == shard),
            forall|shard: Seq<char>, i: int, j: int|
                r.1@.contains_key(shard) && 0 <= i < j < r.1@[shard].len() ==> before(
                    #[trigger] r.1@[shard][i],
                    #[trigger] r.1@[shard][j],
                ),
    {
        proof {
            use_type_invariant(self);
        }
        let held: Version = registry::get_version(&self.data, zone_shards_key(zone_id).as_str());
        let shards: NameMap<Vec<BridgeId>> = match self.data.indexes.bridges_by_zone_shard.get(zone_id) {
            Some(shards) => shards.duplicate(),
            None => NameMap::new(),
        };
        proof {
            let index = self.data.indexes.bridges_by_zone_shard@;
            let bridges = self.data@.bridges;
            let mapping = mapping_at(index, zone_id@);
            assert(shards@ == mapping);
            assert(zone_bridges_indexed(index, bridges, zone_id@));
            assert forall|shard: Seq<char>| #[trigger]
                mapping.contains_key(shard) == shards_in(bridges, zone_id@).contains(shard) && (mapping.contains_key(shard)
                    ==> mapping[shard] == listing(bridges_in(bridges, zone_id@, shard)) && lists(
                    mapping[shard],
                    bridges_in(bridges, zone_id@, shard),
                )) by {
                let group = bridges_in(bridges, zone_id@, shard);
                assert(entry_lists(mapping, shard, group));
                lemma_listing(list_at(mapping, shard), group);
                if group != Set::<Seq<char>>::empty() {
                    assert(exists|id: Seq<char>| group.contains(id)) by {
                        if forall|id: Seq<char>| !group.contains(id) {
                            assert(group =~= Set::<Seq<char>>::empty());
                        }
                    }
                }
            }
            assert(mapping =~= shard_mapping(bridges, zone_id@));
            assert forall|shard: Seq<char>| #[trigger]
                mapping.contains_key(shard) <==> exists|id: Seq<char>| #[trigger]
                    bridges.contains_key(id) && bridges[id].zone == zone_id@ && bridges[id].shard == shard by {
                if mapping.contains_key(shard) {
                    let id = choose|id: Seq<char>| bridges_in(bridges, zone_id@, shard).contains(id);
                    assert(bridges.contains_key(id));
                }
                if exists|id: Seq<char>| #[trigger]
                    bridges.contains_key(id) && bridges[id].zone == zone_id@ && bridges[id].shard == shard {
                    let id = choose|id: Seq<char>| #[trigger]
                        bridges.contains_key(id) && bridges[id].zone == zone_id@ && bridges[id].shard == shard;
                    assert(bridges_in(bridges, zone_id@, shard).contains(id));
                }
            }
            assert forall|shard: Seq<char>, id: Seq<char>| mapping.contains_key(shard) implies (#[trigger] mapping[shard].contains(id)
                <==> bridges.contains_key(id) && bridges[id].zone == zone_id@ && bridges[id].shard == shard) by {
                law_listing_is_sorted_and_complete(mapping[shard], bridges_in(bridges, zone_id@, shard));
            }
            assert forall|shard: Seq<char>, i: int, j: int| mapping.contains_key(shard) && 0 <= i < j < mapping[shard].len() implies before(
                #[trigger] mapping[shard][i],
                #[trigger] mapping[shard][j],
            ) by {
                law_listing_is_sorted_and_complete(mapping[shard], bridges_in(bridges, zone_id@, shard));
            }
        }
        (held, shards)
    }

    /// A shard's segments and zone.
    pub fn shard_segments(&self, shard_id: &str) -> (r: Option<(Version, ZoneId, Vec<Segment>)>)
        ensures
            r is Some <==> self@.registry.shards.contains_key(shard_id@),
            r matches Some(answer) ==> {
                &&& answer.0 == version(self@.registry.versions, key_of(Dataset::ShardSegments(shard_id@)))
                &&& answer.1@ == self@.registry.shards[shard_id@].zone
                &&& answer.2.deep_view() == self@.registry.shards[shard_id@].sorted
                &&& answer.0 == version(self@.registry.versions, "shards/"@ + shard_id@ + "/segments"@)
            },
    {
        match self.data.segments.by_shard.get(shard_id) {
            Some(shard) => {
                let held: Version = registry::get_version(&self.data, shard_segments_key(shard_id).as_str());
                Some((held, shard.zone_id.clone(), shard.segments.sorted.duplicate()))
            },
            None => None,
        }
    }

    /// The nodes of a shard; `None` where there are none.
    pub fn shard_nodes(&self, shard_id: &str) -> (r: Option<(Version, Vec<NodeId>)>)
        ensures
            r is Some <==> nodes_in(self@.registry.nodes, shard_id@) != Set::<Seq<char>>::empty(),
            r matches Some(answer) ==> {
                &&& answer.0 == version(self@.registry.versions, key_of(Dataset::ShardNodes(shard_id@)))
                &&& answer.1.deep_view() == listing(nodes_in(self@.registry.nodes, shard_id@))
                &&& lists(answer.1.deep_view(), nodes_in(self@.registry.nodes, shard_id@))
                &&& answer.0 == version(self@.registry.versions, "shards/"@ + shard_id@ + "/nodes"@)
                &&& forall|id: Seq<char>| #[trigger]
                    answer.1.deep_view().contains(id) <==> self@.registry.nodes.contains_key(id)
                        && self@.registry.nodes[id].shard == shard_id@
                &&& forall|i: int, j: int|
                    0 <= i < j < answer.1.deep_view().len() ==> before(
                        #[trigger] answer.1.deep_view()[i],
                        #[trigger] answer.1.deep_view()[j],
                    )
            },
            r is Some <==> exists|id: Seq<char>| #[trigger]
                self@.registry.nodes.contains_key(id) && self@.registry.nodes[id].shard == shard_id@,
    {
        proof {
            use_type_invariant(self);
            let index = self.data.indexes.nodes_by_shard@;
            let group = nodes_in(self.data@.nodes, shard_id@);
            assert(entry_lists(index, shard_id@, group));
            lemma_listing(list_at(index, shard_id@), group);
            law_listing_is_sorted_and_complete(list_at(index, shard_id@), group);
            if group != Set::<Seq<char>>::empty() {
                let id = choose|id: Seq<char>| group.contains(id);
                if forall|id: Seq<char>| !group.contains(id) {
                    assert(group =~= Set::<Seq<char>>::empty());
                }
                assert(self@.registry.nodes.contains_key(id));
            }
            if exists|id: Seq<char>| #[trigger]
                self@.registry.nodes.contains_key(id) && self@.registry.nodes[id].shard == shard_id@ {
                let id = choose|id: Seq<char>| #[trigger]
                    self@.registry.nodes.contains_key(id) && self@.registry.nodes[id].shard == shard_id@;
                assert(group.contains(id));
            }
        }
        match self.data.indexes.nodes_by_shard.get(shard_id) {
            Some(nodes) => {
                let held: Version = registry::get_version(&self.data, shard_nodes_key(shard_id).as_str());
                Some((held, nodes.duplicate()))
            },
            None => None,
        }
    }

    /// The codecs configuration.
    pub fn codecs(&self) -> (r: Codecs)
        ensures
            r@ == self@.codecs,
    {
        self.codecs.clone()
    }

    /// The numbers of registered components.
    pub fn component_counts(&self) -> (r: ComponentCounts)
        ensures
            r.routers == self@.registry.routers.dom().len(),
            r.bridges == self@.registry.bridges.dom().len(),
            r.nodes == self@.registry.nodes.dom().len(),
            r.zones == router_zones(self@.registry.routers).len(),
            r.zones == self@.registry.routers.dom().map(|id: Seq<char>| self@.registry.routers[id].zone).len(),
    {
        proof {
            use_type_invariant(self);
            let index = self.data.indexes.routers_by_zone@;
            let routers = self.data@.routers;
            assert forall|zone: Seq<char>| index.dom().contains(zone) == router_zones(routers).contains(zone) by {
                let group = routers_in(routers, zone);
                assert(entry_lists(index, zone, group));
                if group != Set::<Seq<char>>::empty() {
                    assert(exists|id: Seq<char>| group.contains(id)) by {
                        if forall|id: Seq<char>| !group.contains(id) {
                            assert(group =~= Set::<Seq<char>>::empty());
                        }
                    }
                }
            }
            assert(index.dom() =~= router_zones(routers));
            let zones = routers.dom().map(|id: Seq<char>| routers[id].zone);
            assert forall|zone: Seq<char>| router_zones(routers).contains(zone) == zones.contains(zone) by {
                if router_zones(routers).contains(zone) {
                    let id = choose|id: Seq<char>| routers_in(routers, zone).contains(id);
                    assert(routers.dom().contains(id));
                }
                if zones.contains(zone) {
                    let id = choose|id: Seq<char>| routers.dom().contains(id) && routers[id].zone == zone;
                    assert(routers_in(routers, zone).contains(id));
                }
            }
            assert(router_zones(routers) =~= zones);
        }
        ComponentCounts {
            routers: self.data.components.routers.len(),
            bridges: self.data.components.bridges.len(),
            nodes: self.data.components.nodes.len(),
            zones: self.data.indexes.routers_by_zone.len(),
        }
    }

    /// How long changes may wait before they are written down.
    pub fn buffer_ms(&self) -> (r: u64)
        ensures
            r == self@.buffer_ms,
    {
        self.buffer_ms
    }

    // ------------------------------------------------------------------------
    // Limits
    // ------------------------------------------------------------------------

    /// Every state of the service holds finitely many records.
    pub proof fn law_finitely_many(self)
        ensures
            finitely_many(self@.registry),
    {
        lemma_data_finite(self.data);
    }

    /// Whether every counter is far enough from its end for any one change.
    pub fn has_room(&self) -> (r: bool)
        ensures
            r <==> roomy(self@.registry),
            r <==> {
                let v = self@.registry;
                let n = 3 + v.routers.dom().len() + v.bridges.dom().len() + v.nodes.dom().len();
                &&& v.global_version + n <= u64::MAX
                &&& forall|key: Seq<char>| #[trigger] v.versions.contains_key(key) ==> v.versions[key] + n <= u64::MAX
                &&& v.shards.dom().len() < u32::MAX
            },
            r ==> forall|c: Change| #[trigger] possible(self@.registry, c),
    {
        let ghost v = self@.registry;
        let ghost q = self.data.versions.key_seq();
        let routers: u128 = self.data.components.routers.len() as u128;
        let bridges: u128 = self.data.components.bridges.len() as u128;
        let nodes: u128 = self.data.components.nodes.len() as u128;
        let n: u128 = 3 + routers + bridges + nodes;
        let limit: u128 = u64::MAX as u128;
        if self.data.segments.by_shard.len() >= u32::MAX as usize {
            return false;
        }
        if self.data.global_version as u128 + n > limit {
            return false;
        }
        let count: usize = self.data.versions.len();
        for i in 0..count
            invariant
                count == q.len(),
                q == self.data.versions.key_seq(),
                v == self@.registry,
                v.versions == self.data.versions@,
                n == 3 + v.routers.dom().len() + v.bridges.dom().len() + v.nodes.dom().len(),
                n <= limit,
                limit == u64::MAX,
                forall|k: int| 0 <= k < i ==> v.versions[#[trigger] q[k]] + n <= u64::MAX,
        {
            let held: Version = *self.data.versions.value_at(i);
            if held as u128 + n > limit {
                assert(v.versions.contains_key(q[i as int]));
                return false;
            }
        }
        proof {
            assert forall|key: Seq<char>| #[trigger] v.versions.contains_key(key) implies v.versions[key] + n
                <= u64::MAX by {
                assert(q.to_set().contains(key));
                let k = choose|k: int| 0 <= k < q.len() && q[k] == key;
                assert(v.versions[q[k]] + n <= u64::MAX);
            }
            lemma_data_finite(self.data);
            assert forall|c: Change| #[trigger] possible(v, c) by {
                law_room_admits_every_change(v, c);
            }
        }
        true
    }

    // ------------------------------------------------------------------------
    // Heartbeats
    // ------------------------------------------------------------------------

    /// Removes the components whose heartbeat is overdue; tells how many there
    /// were of each kind.
    pub fn sweep_expired_components(&mut self, now: u64) -> (r: Swept)
        requires
            possible(old(self)@.registry, (Change::Sweep { now, timeout: old(self)@.timeout_ms })),
        ensures
            r.routers == expired_routers(old(self)@.registry, now, old(self)@.timeout_ms).len(),
            r.bridges == expired_bridges(old(self)@.registry, now, old(self)@.timeout_ms).len(),
            r.nodes == expired_nodes(old(self)@.registry, now, old(self)@.timeout_ms).len(),
            final(self)@ == after(old(self)@, (Change::Sweep { now, timeout: old(self)@.timeout_ms })),
            r.routers == old(self)@.registry.routers.dom().filter(
                |id: Seq<char>| now - old(self)@.registry.routers[id].last_seen > old(self)@.timeout_ms,
            ).len(),
            r.bridges == old(self)@.registry.bridges.dom().filter(
                |id: Seq<char>| now - old(self)@.registry.bridges[id].last_seen > old(self)@.timeout_ms,
            ).len(),
            r.nodes == old(self)@.registry.nodes.dom().filter(
                |id: Seq<char>| now - old(self)@.registry.nodes[id].last_seen > old(self)@.timeout_ms,
            ).len(),
            forall|id: Seq<char>| #[trigger]
                final(self)@.registry.routers.contains_key(id) <==> old(self)@.registry.routers.contains_key(id) && now
                    - old(self)@.registry.routers[id].last_seen <= old(self)@.timeout_ms,
            forall|id: Seq<char>| #[trigger]
                final(self)@.registry.bridges.contains_key(id) <==> old(self)@.registry.bridges.contains_key(id) && now
                    - old(self)@.registry.bridges[id].last_seen <= old(self)@.timeout_ms,
            forall|id: Seq<char>| #[trigger]
                final(self)@.registry.nodes.contains_key(id) <==> old(self)@.registry.nodes.contains_key(id) && now
                    - old(self)@.registry.nodes[id].last_seen <= old(self)@.timeout_ms,
            forall|id: Seq<char>|
                final(self)@.registry.routers.contains_key(id) ==> #[trigger] final(self)@.registry.routers[id] == old(
                    self,
                )@.registry.routers[id],
            forall|id: Seq<char>|
                final(self)@.registry.bridges.contains_key(id) ==> #[trigger] final(self)@.registry.bridges[id] == old(
                    self,
                )@.registry.bridges[id],
            forall|id: Seq<char>|
                final(self)@.registry.nodes.contains_key(id) ==> #[trigger] final(self)@.registry.nodes[id] == old(
                    self,
                )@.registry.nodes[id],
            final(self)@.registry.shards == old(self)@.registry.shards,
            final(self)@.dirty <==> old(self)@.dirty || r.routers > 0 || r.bridges > 0 || r.nodes > 0,
            final(self)@.saving == old(self)@.saving,
            final(self)@.timeout_ms == old(self)@.timeout_ms,
            final(self)@.buffer_ms == old(self)@.buffer_ms,
            final(self)@.codecs == old(self)@.codecs,
    {
        proof {
            use_type_invariant(&*self);
        }
        let timeout_ms: u64 = self.heartbeat_timeout_ms;
        let mut data = empty_data();
        std::mem::swap(&mut data, &mut self.data);
        proof {
            lemma_data_finite(data);
            lemma_sweep_removes(data@, now, timeout_ms);
            law_sweep(old(self)@, now, timeout_ms);
            let v = old(self)@.registry;
            assert(v.routers.dom().filter(|id: Seq<char>| now - v.routers[id].last_seen > timeout_ms)
                =~= expired_routers(v, now, timeout_ms));
            assert(v.bridges.dom().filter(|id: Seq<char>| now - v.bridges[id].last_seen > timeout_ms)
                =~= expired_bridges(v, now, timeout_ms));
            assert(v.nodes.dom().filter(|id: Seq<char>| now - v.nodes[id].last_seen > timeout_ms)
                =~= expired_nodes(v, now, timeout_ms));
        }
        let removed = sweep::sweep_expired_components(&mut data, now, timeout_ms);
        self.data = data;
        self.dirty = self.dirty || removed.routers > 0 || removed.bridges > 0 || removed.nodes > 0;
        removed
    }

    // ------------------------------------------------------------------------
    // Persistence
    // ------------------------------------------------------------------------

    /// Whether something is not known to be written down.
    pub fn is_dirty(&self) -> (r: bool)
        ensures
            r <==> unsaved(self@),
            r <==> self@.dirty || self@.saving,
    {
        self.dirty || self.saving
    }

    /// Takes the snapshot that is to be written down, if something changed.
    /// [`AppState::new`] can start from it. What happens to it is told by
    /// [`AppState::persisted`].
    pub fn persist(&mut self) -> (r: Option<PersistedState>)
        ensures
            r is Some <==> unsaved(old(self)@),
            r matches Some(p) ==> p@ == old(self)@.registry,
            r matches Some(p) ==> counts_fit(p@.shards),
            r is Some <==> old(self)@.dirty || old(self)@.saving,
            r matches Some(p) ==> {
                &&& p.components.routers@ == old(self)@.registry.routers
                &&& p.components.bridges@ == old(self)@.registry.bridges
                &&& p.components.nodes@ == old(self)@.registry.nodes
                &&& p.segments.by_shard@ == old(self)@.registry.shards
                &&& p.versions@ == old(self)@.registry.versions
                &&& p.global_version == old(self)@.registry.global_version
            },
            final(self)@.registry == old(self)@.registry,
            final(self)@.dirty || final(self)@.saving <==> old(self)@.dirty || old(self)@.saving,
            !final(self)@.dirty,
            final(self)@.timeout_ms == old(self)@.timeout_ms,
            final(self)@.buffer_ms == old(self)@.buffer_ms,
            final(self)@.codecs == old(self)@.codecs,
            final(self)@ == if unsaved(old(self)@) {
                snapshot_taken(old(self)@)
            } else {
                old(self)@
            },
    {
        if !self.is_dirty() {
            return None;
        }
        proof {
            use_type_invariant(&*self);
        }
        let snapshot = PersistedState {
            components: Components {
                routers: self.data.components.routers.duplicate(),
                bridges: self.data.components.bridges.duplicate(),
                nodes: self.data.components.nodes.duplicate(),
            },
            segments: SegmentStore { by_shard: self.data.segments.by_shard.duplicate() },
            versions: self.data.versions.duplicate(),
            global_version: self.data.global_version,
        };
        proof {
            assert(snapshot@ =~= self.data@);
            lemma_counted_fits(self.data.indexes.segment_refs_by_zone@, snapshot@.shards);
        }
        self.dirty = false;
        self.saving = true;
        Some(snapshot)
    }

    /// Takes note of how the write of the snapshot ended. A failure leaves
    /// everything to be written again; a change that came in meanwhile is
    /// still to be written whatever the end.
    pub fn persisted(&mut self, written: bool)
        ensures
            final(self)@ == write_ended(old(self)@, written),
            final(self)@.dirty <==> old(self)@.dirty || !written,
            !final(self)@.saving,
            final(self)@.registry == old(self)@.registry,
            final(self)@.timeout_ms == old(self)@.timeout_ms,
            final(self)@.buffer_ms == old(self)@.buffer_ms,
            final(self)@.codecs == old(self)@.codecs,
    {
        proof {
            use_type_invariant(&*self);
        }
        self.dirty = self.dirty || !written;
        self.saving = false;
    }
}

/// The records are finitely many.
proof fn lemma_data_finite(data: AppData)
    ensures
        finitely_many(data@),
{
    data.components.routers.lemma_finite();
    data.components.bridges.lemma_finite();
    data.components.nodes.lemma_finite();
    data.segments.by_shard.lemma_finite();
    let shards = data@.shards;
    assert forall|shard: Seq<char>| #[trigger] shards.contains_key(shard) implies shards[shard].set.finite() by {
        let value = choose|value: ShardSegments| shards[shard] == #[trigger] value.deep_view();
        vstd::seq_lib::seq_to_set_is_finite(value.segments.set@);
    }
}

/// There is a place to list exactly if there is something in it.
proof fn lemma_listed_places(ids: Set<Seq<char>>, places: Set<Seq<char>>)
    requires
        ids.finite(),
        lists(listing(places), places),
        (exists|id: Seq<char>| ids.contains(id)) <==> (exists|place: Seq<char>| places.contains(place)),
    ensures
        listing(places).len() > 0 <==> ids.len() > 0,
{
    let q = listing(places);
    if q.len() > 0 {
        assert(q.to_set().contains(q[0]));
        let id = choose|id: Seq<char>| ids.contains(id);
        if ids.len() == 0 {
            ids.lemma_len0_is_empty();
        }
    }
    if ids.len() > 0 {
        let id = ids.choose();
        assert(ids.contains(id));
        let place = choose|place: Seq<char>| places.contains(place);
        assert(q.to_set().contains(place));
    }
}

/// A sweep counts a dataset exactly if it removes a component.
pub proof fn lemma_sweep_removes(v: RegistryView, now: u64, timeout: u64)
    requires
        finitely_many(v),
    ensures
        sweep_keys(v, now, timeout).len() > 0 <==> expired_routers(v, now, timeout).len() > 0 || expired_bridges(
            v,
            now,
            timeout,
        ).len() > 0 || expired_nodes(v, now, timeout).len() > 0,
{
    let routers = expired_routers(v, now, timeout);
    let bridges = expired_bridges(v, now, timeout);
    let nodes = expired_nodes(v, now, timeout);
    lemma_swept_places(v, now, timeout);
    vstd::set_lib::lemma_len_subset(routers, v.routers.dom());
    vstd::set_lib::lemma_len_subset(bridges, v.bridges.dom());
    vstd::set_lib::lemma_len_subset(nodes, v.nodes.dom());
    if exists|id: Seq<char>| routers.contains(id) {
        let id = choose|id: Seq<char>| routers.contains(id);
        assert(swept_router_zones(v, now, timeout).contains(v.routers[id].zone));
    }
    if exists|id: Seq<char>| bridges.contains(id) {
        let id = choose|id: Seq<char>| bridges.contains(id);
        assert(swept_bridge_zones(v, now, timeout).contains(v.bridges[id].zone));
    }
    if exists|id: Seq<char>| nodes.contains(id) {
        let id = choose|id: Seq<char>| nodes.contains(id);
        assert(swept_node_shards(v, now, timeout).contains(v.nodes[id].shard));
    }
    lemma_listed_places(routers, swept_router_zones(v, now, timeout));
    lemma_listed_places(bridges, swept_bridge_zones(v, now, timeout));
    lemma_listed_places(nodes, swept_node_shards(v, now, timeout));
}

} // verus!
