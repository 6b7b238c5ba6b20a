//! Dataset keys.
//!
//! Each key names one independently fetchable dataset. Consumers compare the
//! versions kept under these keys with their own before fetching anything.

use vstd::prelude::*;

verus! {

/// One independently fetchable dataset.
pub enum Dataset {
    ZoneRouters(Seq<char>),
    ZoneShards(Seq<char>),
    ZoneSegments(Seq<char>),
    ShardSegments(Seq<char>),
    ShardNodes(Seq<char>),
}

/// The key under which the version of a dataset is kept.
pub open spec fn key_of(d: Dataset) -> Seq<char> {
    match d {
        Dataset::ZoneRouters(zone) => "zones/"@ + zone + "/routers"@,
        Dataset::ZoneShards(zone) => "zones/"@ + zone + "/shards"@,
        Dataset::ZoneSegments(zone) => "zones/"@ + zone + "/segments"@,
        Dataset::ShardSegments(shard) => "shards/"@ + shard + "/segments"@,
        Dataset::ShardNodes(shard) => "shards/"@ + shard + "/nodes"@,
    }
}

/// Distinct datasets have distinct keys, whatever characters the zone and
/// shard names hold: a version belongs to one dataset only.
pub proof fn law_keys_distinct(a: Dataset, b: Dataset)
    requires
        key_of(a) == key_of(b),
    ensures
        a == b,
{
    reveal_strlit("zones/");
    reveal_strlit("shards/");
    reveal_strlit("/routers");
    reveal_strlit("/shards");
    reveal_strlit("/segments");
    reveal_strlit("/nodes");
    let (p, x, s) = parts(a);
    let (q, y, t) = parts(b);
    let k = key_of(a);
    assert(k == p + x + s);
    assert(k == q + y + t);
    // The first character tells zone datasets from shard datasets, the
    // characters before the end tell the endings apart.
    assert(k[0] == p[0] && k[0] == q[0]);
    assert(p == q);
    assert(k[k.len() - 3] == s[s.len() - 3] && k[k.len() - 3] == t[t.len() - 3]);
    assert(k[k.len() - 4] == s[s.len() - 4] && k[k.len() - 4] == t[t.len() - 4]);
    assert(s == t);
    assert(x =~= k.subrange(p.len() as int, k.len() - s.len()));
    assert(y =~= k.subrange(p.len() as int, k.len() - s.len()));
}

/// A key's fixed beginning, its name, and its fixed end.
spec fn parts(d: Dataset) -> (Seq<char>, Seq<char>, Seq<char>) {
    match d {
        Dataset::ZoneRouters(zone) => ("zones/"@, zone, "/routers"@),
        Dataset::ZoneShards(zone) => ("zones/"@, zone, "/shards"@),
        Dataset::ZoneSegments(zone) => ("zones/"@, zone, "/segments"@),
        Dataset::ShardSegments(shard) => ("shards/"@, shard, "/segments"@),
        Dataset::ShardNodes(shard) => ("shards/"@, shard, "/nodes"@),
    }
}

/// The key of a zone's router list.
pub fn zone_routers_key(zone_id: &str) -> (r: String)
    ensures
        r@ == key_of(Dataset::ZoneRouters(zone_id@)),
        r@ == "zones/"@ + zone_id@ + "/routers"@,
{
    "zones/".to_owned().concat(zone_id).concat("/routers")
}

/// The key of a zone's shard-to-bridge mapping.
pub fn zone_shards_key(zone_id: &str) -> (r: String)
    ensures
        r@ == key_of(Dataset::ZoneShards(zone_id@)),
        r@ == "zones/"@ + zone_id@ + "/shards"@,
{
    "zones/".to_owned().concat(zone_id).concat("/shards")
}

/// The key of a zone's segment list.
pub fn zone_segments_key(zone_id: &str) -> (r: String)
    ensures
        r@ == key_of(Dataset::ZoneSegments(zone_id@)),
        r@ == "zones/"@ + zone_id@ + "/segments"@,
{
    "zones/".to_owned().concat(zone_id).concat("/segments")
}

/// The key of a shard's segment list.
pub fn shard_segments_key(shard_id: &str) -> (r: String)
    ensures
        r@ == key_of(Dataset::ShardSegments(shard_id@)),
        r@ == "shards/"@ + shard_id@ + "/segments"@,
{
    "shards/".to_owned().concat(shard_id).concat("/segments")
}

/// The key of a shard's node list.
pub fn shard_nodes_key(shard_id: &str) -> (r: String)
    ensures
        r@ == key_of(Dataset::ShardNodes(shard_id@)),
        r@ == "shards/"@ + shard_id@ + "/nodes"@,
{
    "shards/".to_owned().concat(shard_id).concat("/nodes")
}

} // verus!
