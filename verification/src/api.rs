//! The requests of the HTTP API and their answers.

use vstd::prelude::*;

use crate::change::{change_keys, possible, Change};
use crate::codecs::CodecsView;
use crate::keys::{key_of, Dataset};
use crate::model::{
    listing, nodes_in, routers_in, segments_in, shard_mapping, version, BridgeView, NodeView,
    RouterView,
};
use crate::names::{lemma_prefix_set, Duplicate};
use crate::records::VersionManifest;
use crate::state::{after, AppState};
use crate::table::NameMap;

verus! {

// ----------------------------------------------------------------------------
// Refusals
// ----------------------------------------------------------------------------

/// A request that is not granted: the HTTP status and the error text.
#[derive(Debug, PartialEq, Eq)]
pub struct Refusal {
    pub status: u16,
    pub error: String,
}

/// The request is wrong.
pub const BAD_REQUEST: u16 = 400;

/// What is asked for is not there.
pub const NOT_FOUND: u16 = 404;

/// The class under which a failed request is counted; `None` for a request
/// that did not fail.
pub open spec fn error_class(status: u16) -> Option<Seq<char>> {
    if status >= 500 {
        Some("server_error"@)
    } else if status >= 400 {
        Some("client_error"@)
    } else {
        None
    }
}

/// The class under which a failed request is counted.
pub fn error_type(status: u16) -> (r: Option<&'static str>)
    ensures
        match r {
            Some(class) => error_class(status) == Some(class@),
            None => error_class(status) is None,
        },
        r is None <==> status < 400,
        400 <= status < 500 ==> r is Some && r->0@ == "client_error"@,
        status >= 500 ==> r is Some && r->0@ == "server_error"@,
{
    if status >= 400 {
        if status >= 500 {
            Some("server_error")
        } else {
            Some("client_error")
        }
    } else {
        None
    }
}

// ----------------------------------------------------------------------------
// Operational
// ----------------------------------------------------------------------------

/// The health answer.
pub fn health_handler() -> (r: &'static str)
    ensures
        r@ == "OK"@,
{
    "OK"
}

// ----------------------------------------------------------------------------
// Registration
// ----------------------------------------------------------------------------

/// A component registration or heartbeat.
#[derive(Debug, PartialEq, Eq)]
pub struct RegisterRequest {
    /// `router`, `bridge` or `node`.
    pub kind: String,
    /// The component.
    pub id: String,
    /// The zone that the component is in.
    pub zone: String,
    /// Needed for bridges and nodes.
    pub shard: Option<String>,
}

/// The change that a registration asks for, or why it is refused.
pub open spec fn registering(
    kind: Seq<char>,
    id: Seq<char>,
    zone: Seq<char>,
    shard: Option<Seq<char>>,
    now: u64,
) -> Result<Change, Seq<char>> {
    if kind == "router"@ {
        Ok(Change::Router { id, zone, now })
    } else if kind == "bridge"@ {
        match shard {
            Some(shard) => Ok(Change::Bridge { id, shard, zone, now }),
            None => Err("shard is required for bridge"@),
        }
    } else if kind == "node"@ {
        match shard {
            Some(shard) => Ok(Change::Node { id, shard, zone, now }),
            None => Err("shard is required for node"@),
        }
    } else {
        Err("unknown registration kind: "@ + kind)
    }
}

impl RegisterRequest {
    /// The change that the request asks for, or why it is refused.
    pub open spec fn asks(self, now: u64) -> Result<Change, Seq<char>> {
        registering(
            self.kind@,
            self.id@,
            self.zone@,
            match self.shard {
                Some(shard) => Some(shard@),
                None => None,
            },
            now,
        )
    }
}

/// Registers a router, bridge or node; tells whether a dataset changed. A
/// refused request changes nothing.
pub fn register_handler(state: &mut AppState, req: RegisterRequest, now: u64) -> (r: Result<bool, Refusal>)
    requires
        req.asks(now) matches Ok(c) ==> possible(old(state)@.registry, c),
    ensures
        match req.asks(now) {
            Ok(c) => {
                &&& r is Ok
                &&& r->Ok_0 <==> change_keys(old(state)@.registry, c).len() > 0
                &&& final(state)@ == after(old(state)@, c)
            },
            Err(text) => {
                &&& r is Err
                &&& r->Err_0.status == BAD_REQUEST
                &&& r->Err_0.error@ == text
                &&& final(state)@ == old(state)@
            },
        },
        r is Ok <==> req.kind@ == "router"@ || (req.kind@ == "bridge"@ || req.kind@ == "node"@) && req.shard is Some,
        // A granted registration keeps the component of the request, heard of
        // just now, and touches no other.
        req.kind@ == "router"@ ==> {
            &&& final(state)@.registry.routers == old(state)@.registry.routers.insert(
                req.id@,
                (RouterView { zone: req.zone@, last_seen: now }),
            )
            &&& final(state)@.registry.bridges == old(state)@.registry.bridges
            &&& final(state)@.registry.nodes == old(state)@.registry.nodes
            &&& r->Ok_0 <==> !old(state)@.registry.routers.contains_key(req.id@) || old(
                state,
            )@.registry.routers[req.id@].zone != req.zone@
        },
        req.kind@ == "bridge"@ && req.shard is Some ==> {
            &&& final(state)@.registry.bridges == old(state)@.registry.bridges.insert(
                req.id@,
                (BridgeView { shard: req.shard->0@, zone: req.zone@, last_seen: now }),
            )
            &&& final(state)@.registry.routers == old(state)@.registry.routers
            &&& final(state)@.registry.nodes == old(state)@.registry.nodes
            &&& r->Ok_0 <==> !old(state)@.registry.bridges.contains_key(req.id@) || old(
                state,
            )@.registry.bridges[req.id@].zone != req.zone@ || old(state)@.registry.bridges[req.id@].shard
                != req.shard->0@
        },
        req.kind@ == "node"@ && req.shard is Some ==> {
            &&& final(state)@.registry.nodes == old(state)@.registry.nodes.insert(
                req.id@,
                (NodeView { shard: req.shard->0@, zone: req.zone@, last_seen: now }),
            )
            &&& final(state)@.registry.routers == old(state)@.registry.routers
            &&& final(state)@.registry.bridges == old(state)@.registry.bridges
            &&& r->Ok_0 <==> !old(state)@.registry.nodes.contains_key(req.id@) || old(
                state,
            )@.registry.nodes[req.id@].shard != req.shard->0@
        },
        final(state)@.registry.shards == old(state)@.registry.shards,
        final(state)@.dirty <==> old(state)@.dirty || r is Ok && r->Ok_0,
        final(state)@.saving == old(state)@.saving,
        final(state)@.timeout_ms == old(state)@.timeout_ms,
        final(state)@.codecs == old(state)@.codecs,
        // A refused one is answered with the reason and changes nothing.
        r is Err ==> r->Err_0.status == 400 && final(state)@ == old(state)@,
        req.kind@ == "bridge"@ && req.shard is None ==> r->Err_0.error@ == "shard is required for bridge"@,
        req.kind@ == "node"@ && req.shard is None ==> r->Err_0.error@ == "shard is required for node"@,
        req.kind@ != "router"@ && req.kind@ != "bridge"@ && req.kind@ != "node"@ ==> r->Err_0.error@
            == "unknown registration kind: "@ + req.kind@,
{
    proof {
        reveal_strlit("router");
        reveal_strlit("bridge");
        reveal_strlit("node");
        assert("router"@[0] != "bridge"@[0]);
        assert("router"@.len() != "node"@.len());
        assert("bridge"@.len() != "node"@.len());
    }
    if req.kind == "router".to_owned() {
        Ok(state.register_router(req.id, req.zone, now))
    } else if req.kind == "bridge".to_owned() {
        match req.shard {
            Some(shard) => Ok(state.register_bridge(req.id, shard, req.zone, now)),
            None => Err(Refusal { status: BAD_REQUEST, error: "shard is required for bridge".to_owned() }),
        }
    } else if req.kind == "node".to_owned() {
        match req.shard {
            Some(shard) => Ok(state.register_node(req.id, shard, req.zone, now)),
            None => Err(Refusal { status: BAD_REQUEST, error: "shard is required for node".to_owned() }),
        }
    } else {
        Err(
            Refusal {
                status: BAD_REQUEST,
                error: "unknown registration kind: ".to_owned().concat(req.kind.as_str()),
            },
        )
    }
}

// ----------------------------------------------------------------------------
// Versions
// ----------------------------------------------------------------------------

/// Every dataset version.
pub fn versions_handler(state: &AppState) -> (r: VersionManifest)
    ensures
        r.global_version == state@.registry.global_version,
        r.versions@ == state@.registry.versions,
{
    state.version_manifest()
}

// ----------------------------------------------------------------------------
// Segment ownership
// ----------------------------------------------------------------------------

/// A shard's segment update.
#[derive(Debug, PartialEq, Eq)]
pub struct UpdateSegmentsRequest {
    /// The zone that the shard is in.
    pub zone: String,
    /// All segments of the shard.
    pub segments: Vec<String>,
}

/// Replaces the segment ownership of a shard; tells whether anything changed.
pub fn update_segments_handler(state: &mut AppState, shard_id: String, req: UpdateSegmentsRequest) -> (r: bool)
    requires
        possible(
            old(state)@.registry,
            (Change::Segments { shard: shard_id@, zone: req.zone@, set: req.segments.deep_view().to_set() }),
        ),
    ensures
        r <==> change_keys(
            old(state)@.registry,
            (Change::Segments { shard: shard_id@, zone: req.zone@, set: req.segments.deep_view().to_set() }),
        ).len() > 0,
        final(state)@ == after(
            old(state)@,
            (Change::Segments { shard: shard_id@, zone: req.zone@, set: req.segments.deep_view().to_set() }),
        ),
{
    state.update_segments(shard_id, req.zone, req.segments)
}

// ----------------------------------------------------------------------------
// Edge routers
// ----------------------------------------------------------------------------

/// The routers of a zone.
#[derive(Debug, PartialEq, Eq)]
pub struct ZoneRoutersResponse {
    pub version: u64,
    pub routers: Vec<String>,
}

/// The routers of a zone.
pub fn zone_routers_handler(state: &AppState, zone_id: &str) -> (r: ZoneRoutersResponse)
    ensures
        r.version == version(state@.registry.versions, key_of(Dataset::ZoneRouters(zone_id@))),
        r.routers.deep_view() == listing(routers_in(state@.registry.routers, zone_id@)),
{
    let (version, routers) = state.zone_routers(zone_id);
    ZoneRoutersResponse { version, routers }
}

/// The distinct segments of a zone.
#[derive(Debug, PartialEq, Eq)]
pub struct ZoneSegmentsResponse {
    pub version: u64,
    pub segments: Vec<String>,
}

/// The distinct segments of a zone.
pub fn zone_segments_handler(state: &AppState, zone_id: &str) -> (r: ZoneSegmentsResponse)
    ensures
        r.version == version(state@.registry.versions, key_of(Dataset::ZoneSegments(zone_id@))),
        r.segments.deep_view() == listing(segments_in(state@.registry.shards, zone_id@)),
{
    let (version, segments) = state.zone_segments(zone_id);
    ZoneSegmentsResponse { version, segments }
}

// ----------------------------------------------------------------------------
// Zone routers
// ----------------------------------------------------------------------------

/// The bridges that serve a shard.
#[derive(Debug, PartialEq, Eq)]
pub struct ShardBridges {
    pub bridges: Vec<String>,
}

impl DeepView for ShardBridges {
    type V = Seq<Seq<char>>;

    open spec fn deep_view(&self) -> Seq<Seq<char>> {
        self.bridges.deep_view()
    }
}

/// The shards of a zone, each with its bridges.
#[derive(Debug, PartialEq, Eq)]
pub struct ZoneShardsResponse {
    pub version: u64,
    pub shards: NameMap<ShardBridges>,
}

/// The shards of a zone, each with its bridges.
pub fn zone_shards_handler(state: &AppState, zone_id: &str) -> (r: ZoneShardsResponse)
    ensures
        r.version == version(state@.registry.versions, key_of(Dataset::ZoneShards(zone_id@))),
        r.shards@ == shard_mapping(state@.registry.bridges, zone_id@),
{
    let (version, mapping) = state.zone_shards(zone_id);
    let mut shards: NameMap<ShardBridges> = NameMap::new();
    let n: usize = mapping.len();
    let ghost q = mapping.key_seq();
    let ghost m = mapping@;
    for i in 0..n
        invariant
            n == q.len(),
            q == mapping.key_seq(),
            m == mapping@,
            shards@.dom() == q.take(i as int).to_set(),
            forall|shard: Seq<char>| #[trigger] shards@.contains_key(shard) ==> shards@[shard] == m[shard],
    {
        proof {
            lemma_prefix_set(q, i as int);
        }
        shards.insert(mapping.key_at(i).clone(), ShardBridges { bridges: mapping.value_at(i).duplicate() });
        assert(shards@.dom() =~= q.take(i + 1).to_set());
    }
    assert(q.take(n as int) =~= q);
    assert(shards@ =~= m);
    ZoneShardsResponse { version, shards }
}

/// The segments of a shard.
#[derive(Debug, PartialEq, Eq)]
pub struct ShardSegmentsResponse {
    pub version: u64,
    pub zone: String,
    pub segments: Vec<String>,
}

/// The segments of a shard; refused where the shard published none.
pub fn shard_segments_handler(state: &AppState, shard_id: &str) -> (r: Result<ShardSegmentsResponse, Refusal>)
    ensures
        r is Ok <==> state@.registry.shards.contains_key(shard_id@),
        match r {
            Ok(answer) => {
                &&& answer.version == version(state@.registry.versions, key_of(Dataset::ShardSegments(shard_id@)))
                &&& answer.zone@ == state@.registry.shards[shard_id@].zone
                &&& answer.segments.deep_view() == state@.registry.shards[shard_id@].sorted
            },
            Err(refusal) => refusal.status == NOT_FOUND && refusal.error@ == "unknown shard"@,
        },
        r matches Err(refusal) ==> refusal.status == 404,
{
    match state.shard_segments(shard_id) {
        Some((version, zone, segments)) => Ok(ShardSegmentsResponse { version, zone, segments }),
        None => Err(Refusal { status: NOT_FOUND, error: "unknown shard".to_owned() }),
    }
}

// ----------------------------------------------------------------------------
// Bridges
// ----------------------------------------------------------------------------

/// The nodes of a shard.
#[derive(Debug, PartialEq, Eq)]
pub struct NodesResponse {
    pub version: u64,
    pub nodes: Vec<String>,
}

/// The nodes of a shard; refused where there are none.
pub fn shard_nodes_handler(state: &AppState, shard_id: &str) -> (r: Result<NodesResponse, Refusal>)
    ensures
        r is Ok <==> nodes_in(state@.registry.nodes, shard_id@) != Set::<Seq<char>>::empty(),
        match r {
            Ok(answer) => {
                &&& answer.version == version(state@.registry.versions, key_of(Dataset::ShardNodes(shard_id@)))
                &&& answer.nodes.deep_view() == listing(nodes_in(state@.registry.nodes, shard_id@))
            },
            Err(refusal) => refusal.status == NOT_FOUND && refusal.error@ == "unknown shard"@,
        },
        r matches Err(refusal) ==> refusal.status == 404,
{
    match state.shard_nodes(shard_id) {
        Some((version, nodes)) => Ok(NodesResponse { version, nodes }),
        None => Err(Refusal { status: NOT_FOUND, error: "unknown shard".to_owned() }),
    }
}

// ----------------------------------------------------------------------------
// Codecs
// ----------------------------------------------------------------------------

/// The codecs configuration and its hash.
#[derive(Debug, PartialEq, Eq)]
pub struct CodecsResponse {
    pub rate_features: Vec<String>,
    pub hash: u64,
}

/// The codecs configuration and its hash.
pub fn codecs_handler(state: &AppState) -> (r: CodecsResponse)
    ensures
        state@.codecs == (CodecsView { rate_features: r.rate_features.deep_view(), hash: r.hash }),
        r.rate_features.deep_view() == state@.codecs.rate_features,
        r.hash == state@.codecs.hash,
{
    let codecs = state.codecs();
    CodecsResponse { rate_features: codecs.rate_features, hash: codecs.hash }
}

} // verus!
