//! The segment reference counts of the zones.

use vstd::prelude::*;

use crate::index::{
    all_positive, count_at, counted_listed, counts_of, list_at, owners_counted, positive,
    AppData, Indexes,
};
use crate::model::{counts_fit, lemma_listing, listing, owners, segments_in, ShardView};
use crate::names::{ascending, lemma_prefix_fresh, lemma_prefix_set, lists, Duplicate, NameList};
use crate::records::{Segment, SegmentSet, ShardSegments};
use crate::table::NameMap;

verus! {

/// The counts with every segment of `set` counted once more.
pub open spec fn counted_up(before: Map<Seq<char>, u32>, after: Map<Seq<char>, u32>, set: Set<Seq<char>>) -> bool {
    forall|segment: Seq<char>|
        #[trigger] count_at(after, segment) == count_at(before, segment) + if set.contains(segment) {
            1nat
        } else {
            0nat
        }
}

/// The counts with every segment of `set` that is counted at all counted once
/// less.
pub open spec fn counted_down(before: Map<Seq<char>, u32>, after: Map<Seq<char>, u32>, set: Set<Seq<char>>) -> bool {
    forall|segment: Seq<char>|
        #[trigger] count_at(after, segment) == count_at(before, segment) - if set.contains(segment) && count_at(
            before,
            segment,
        ) > 0 {
            1nat
        } else {
            0nat
        }
}

/// Counts every segment of `set` once more; tells whether one of them was not
/// counted before.
fn count_up(counts: &mut NameMap<u32>, set: &NameList) -> (r: bool)
    requires
        positive(old(counts)@),
        forall|segment: Seq<char>| set@.contains(segment) ==> #[trigger] count_at(old(counts)@, segment) < u32::MAX,
    ensures
        positive(final(counts)@),
        counted_up(old(counts)@, final(counts)@, set@.to_set()),
        r <==> exists|segment: Seq<char>| set@.contains(segment) && #[trigger] count_at(old(counts)@, segment) == 0,
{
    let n: usize = set.len();
    let ghost q = set@;
    let ghost start = counts@;
    let mut observable_change = false;
    assert(q.take(0).to_set() =~= Set::<Seq<char>>::empty());
    for i in 0..n
        invariant
            n == q.len(),
            q == set@,
            ascending(q),
            positive(counts@),
            counted_up(start, counts@, q.take(i as int).to_set()),
            forall|segment: Seq<char>| q.contains(segment) ==> #[trigger] count_at(start, segment) < u32::MAX,
            observable_change <==> exists|j: int| 0 <= j < i && count_at(start, #[trigger] q[j]) == 0,
    {
        let segment = set.at(i);
        let ghost before = counts@;
        proof {
            lemma_prefix_set(q, i as int);
            lemma_prefix_fresh(q, i as int);
            assert(count_at(before, q[i as int]) == count_at(start, q[i as int]));
            assert(q.contains(q[i as int]));
            assert(count_at(start, q[i as int]) < u32::MAX);
        }
        let count: u32 = match counts.get(segment.as_str()) {
            Some(count) => *count,
            None => 0,
        };
        assert(count == count_at(before, q[i as int]));
        if count == 0 {
            observable_change = true;
            assert(count_at(start, q[i as int]) == 0);
        }
        counts.insert(segment.clone(), count + 1);
        assert forall|s: Seq<char>| #[trigger] count_at(counts@, s) == count_at(start, s) + if q.take(
            i + 1,
        ).to_set().contains(s) {
            1nat
        } else {
            0nat
        } by {
            assert(count_at(before, s) == count_at(start, s) + if q.take(i as int).to_set().contains(s) {
                1nat
            } else {
                0nat
            });
        }
    }
    assert(q.take(n as int) =~= q);
    proof {
        if observable_change {
            let j = choose|j: int| 0 <= j < n && count_at(start, #[trigger] q[j]) == 0;
            assert(set@.contains(q[j]));
        } else {
            assert forall|s: Seq<char>| set@.contains(s) implies #[trigger] count_at(start, s) != 0 by {
                let j = choose|j: int| 0 <= j < q.len() && q[j] == s;
                assert(count_at(start, q[j]) != 0);
            }
        }
    }
    observable_change
}

/// Counts every segment of `set` that is counted once less; tells whether one
/// of them is no longer counted.
fn count_down(counts: &mut NameMap<u32>, set: &NameList) -> (r: bool)
    requires
        positive(old(counts)@),
    ensures
        positive(final(counts)@),
        counted_down(old(counts)@, final(counts)@, set@.to_set()),
        r <==> exists|segment: Seq<char>| set@.contains(segment) && #[trigger] count_at(old(counts)@, segment) == 1,
{
    let n: usize = set.len();
    let ghost q = set@;
    let ghost start = counts@;
    let mut observable_change = false;
    assert(q.take(0).to_set() =~= Set::<Seq<char>>::empty());
    for i in 0..n
        invariant
            n == q.len(),
            q == set@,
            ascending(q),
            positive(counts@),
            counted_down(start, counts@, q.take(i as int).to_set()),
            observable_change <==> exists|j: int| 0 <= j < i && count_at(start, #[trigger] q[j]) == 1,
    {
        let segment = set.at(i);
        let ghost before = counts@;
        proof {
            lemma_prefix_set(q, i as int);
            lemma_prefix_fresh(q, i as int);
            assert(count_at(before, q[i as int]) == count_at(start, q[i as int]));
        }
        let held: Option<u32> = match counts.get(segment.as_str()) {
            Some(count) => Some(*count),
            None => None,
        };
        if let Some(count) = held {
            assert(before.contains_key(q[i as int]));
            assert(count == count_at(before, q[i as int]));
            let left: u32 = count - 1;
            if left == 0 {
                counts.remove(segment.as_str());
                observable_change = true;
                assert(count_at(start, q[i as int]) == 1);
            } else {
                counts.insert(segment.clone(), left);
            }
        }
        assert forall|s: Seq<char>| #[trigger] count_at(counts@, s) == count_at(start, s) - if q.take(
            i + 1,
        ).to_set().contains(s) && count_at(start, s) > 0 {
            1nat
        } else {
            0nat
        } by {
            assert(count_at(before, s) == count_at(start, s) - if q.take(i as int).to_set().contains(s) && count_at(
                start,
                s,
            ) > 0 {
                1nat
            } else {
                0nat
            });
        }
    }
    assert(q.take(n as int) =~= q);
    proof {
        if observable_change {
            let j = choose|j: int| 0 <= j < n && count_at(start, #[trigger] q[j]) == 1;
            assert(set@.contains(q[j]));
        } else {
            assert forall|s: Seq<char>| set@.contains(s) implies #[trigger] count_at(start, s) != 1 by {
                let j = choose|j: int| 0 <= j < q.len() && q[j] == s;
                assert(count_at(start, q[j]) != 1);
            }
        }
    }
    observable_change
}

/// Rebuilds the segment list of one zone from its counts.
pub fn rebuild_zone_segment_vector(data: &mut AppData, zone_id: &str)
    ensures
        final(data)@ == old(data)@,
        lists(
            list_at(final(data).indexes.segments_by_zone@, zone_id@),
            counts_of(old(data).indexes.segment_refs_by_zone@, zone_id@).dom(),
        ),
        final(data).indexes.segments_by_zone@.contains_key(zone_id@) <==> old(
            data,
        ).indexes.segment_refs_by_zone@.contains_key(zone_id@),
        final(data).indexes.segments_by_zone@.remove(zone_id@) == old(data).indexes.segments_by_zone@.remove(zone_id@),
        *final(data) == (AppData {
            indexes: Indexes { segments_by_zone: final(data).indexes.segments_by_zone, ..old(data).indexes },
            ..*old(data)
        }),
{
    match data.indexes.segment_refs_by_zone.get(zone_id) {
        None => {
            data.indexes.segments_by_zone.remove(zone_id);
            assert(Seq::<Seq<char>>::empty().to_set() =~= Set::<Seq<char>>::empty());
        },
        Some(counts) => {
            let segments = counts.keys();
            data.indexes.segments_by_zone.insert(zone_id.to_owned(), segments);
        },
    }
    assert(data.indexes.segments_by_zone@.remove(zone_id@) =~= old(data).indexes.segments_by_zone@.remove(zone_id@));
}

/// Adds a shard's segments to a zone; tells whether the zone's set of distinct
/// segments changed.
pub fn add_shard_segments_to_zone(data: &mut AppData, zone_id: &str, segments: &SegmentSet) -> (r: bool)
    requires
        all_positive(old(data).indexes.segment_refs_by_zone@),
        counted_listed(old(data).indexes.segments_by_zone@, old(data).indexes.segment_refs_by_zone@),
        forall|segment: Seq<char>|
            segments.set@.contains(segment) ==> #[trigger] count_at(
                counts_of(old(data).indexes.segment_refs_by_zone@, zone_id@),
                segment,
            ) < u32::MAX,
    ensures
        final(data)@ == old(data)@,
        all_positive(final(data).indexes.segment_refs_by_zone@),
        counted_listed(final(data).indexes.segments_by_zone@, final(data).indexes.segment_refs_by_zone@),
        counted_up(
            counts_of(old(data).indexes.segment_refs_by_zone@, zone_id@),
            counts_of(final(data).indexes.segment_refs_by_zone@, zone_id@),
            segments.set@.to_set(),
        ),
        forall|zone: Seq<char>|
            zone != zone_id@ ==> #[trigger] counts_of(final(data).indexes.segment_refs_by_zone@, zone) == counts_of(
                old(data).indexes.segment_refs_by_zone@,
                zone,
            ),
        r <==> exists|segment: Seq<char>|
            segments.set@.contains(segment) && #[trigger] count_at(
                counts_of(old(data).indexes.segment_refs_by_zone@, zone_id@),
                segment,
            ) == 0,
        *final(data) == (AppData {
            indexes: Indexes {
                segment_refs_by_zone: final(data).indexes.segment_refs_by_zone,
                segments_by_zone: final(data).indexes.segments_by_zone,
                ..old(data).indexes
            },
            ..*old(data)
        }),
{
    let ghost refs = data.indexes.segment_refs_by_zone@;
    let ghost listed = data.indexes.segments_by_zone@;
    let mut counts = match data.indexes.segment_refs_by_zone.remove(zone_id) {
        Some(counts) => counts,
        None => NameMap::new(),
    };
    let ghost before = counts@;
    assert(before == counts_of(refs, zone_id@));
    assert(positive(counts_of(refs, zone_id@)));
    let observable_change = count_up(&mut counts, &segments.set);
    let ghost after = counts@;
    data.indexes.segment_refs_by_zone.insert(zone_id.to_owned(), counts);
    let ghost now = data.indexes.segment_refs_by_zone@;
    proof {
        assert(counts_of(now, zone_id@) == after);
        assert forall|zone: Seq<char>| zone != zone_id@ implies #[trigger] counts_of(now, zone) == counts_of(refs, zone) by {}
        assert forall|zone: Seq<char>| positive(#[trigger] counts_of(now, zone)) by {
            if zone != zone_id@ {
                assert(positive(counts_of(refs, zone)));
            }
        }
    }
    if observable_change {
        rebuild_zone_segment_vector(data, zone_id);
    }
    proof {
        assert forall|zone: Seq<char>| lists(
            #[trigger] list_at(data.indexes.segments_by_zone@, zone),
            counts_of(now, zone).dom(),
        ) by {
            assert(lists(list_at(listed, zone), counts_of(refs, zone).dom()));
            if zone != zone_id@ {
                assert(data.indexes.segments_by_zone@.remove(zone_id@).contains_key(zone) == listed.remove(
                    zone_id@,
                ).contains_key(zone));
                assert(listed.contains_key(zone) ==> data.indexes.segments_by_zone@.remove(zone_id@)[zone]
                    == listed.remove(zone_id@)[zone]);
            } else if !observable_change {
                assert(after.dom() =~= before.dom()) by {
                    assert forall|s: Seq<char>| after.dom().contains(s) <==> before.dom().contains(s) by {
                        assert(count_at(after, s) > 0 <==> after.contains_key(s));
                        assert(count_at(before, s) > 0 <==> before.contains_key(s));
                        assert(segments.set@.to_set().contains(s) ==> count_at(before, s) != 0);
                    }
                }
            }
        }
    }
    observable_change
}

/// Removes a shard's segments from a zone; tells whether the zone's set of
/// distinct segments changed.
pub fn remove_shard_segments_from_zone(data: &mut AppData, zone_id: &str, segments: &SegmentSet) -> (r: bool)
    requires
        all_positive(old(data).indexes.segment_refs_by_zone@),
        counted_listed(old(data).indexes.segments_by_zone@, old(data).indexes.segment_refs_by_zone@),
    ensures
        final(data)@ == old(data)@,
        all_positive(final(data).indexes.segment_refs_by_zone@),
        counted_listed(final(data).indexes.segments_by_zone@, final(data).indexes.segment_refs_by_zone@),
        counted_down(
            counts_of(old(data).indexes.segment_refs_by_zone@, zone_id@),
            counts_of(final(data).indexes.segment_refs_by_zone@, zone_id@),
            segments.set@.to_set(),
        ),
        forall|zone: Seq<char>|
            zone != zone_id@ ==> #[trigger] counts_of(final(data).indexes.segment_refs_by_zone@, zone) == counts_of(
                old(data).indexes.segment_refs_by_zone@,
                zone,
            ),
        r <==> exists|segment: Seq<char>|
            segments.set@.contains(segment) && #[trigger] count_at(
                counts_of(old(data).indexes.segment_refs_by_zone@, zone_id@),
                segment,
            ) == 1,
        *final(data) == (AppData {
            indexes: Indexes {
                segment_refs_by_zone: final(data).indexes.segment_refs_by_zone,
                segments_by_zone: final(data).indexes.segments_by_zone,
                ..old(data).indexes
            },
            ..*old(data)
        }),
{
    let ghost refs = data.indexes.segment_refs_by_zone@;
    let ghost listed = data.indexes.segments_by_zone@;
    let mut counts = match data.indexes.segment_refs_by_zone.remove(zone_id) {
        Some(counts) => counts,
        None => {
            assert(data.indexes.segment_refs_by_zone@ =~= refs);
            assert(counts_of(refs, zone_id@) == Map::<Seq<char>, u32>::empty());
            return false;
        },
    };
    let ghost before = counts@;
    assert(before == counts_of(refs, zone_id@));
    assert(positive(counts_of(refs, zone_id@)));
    let observable_change = count_down(&mut counts, &segments.set);
    let ghost after = counts@;
    if counts.is_empty() {
        data.indexes.segments_by_zone.remove(zone_id);
        assert(after =~= Map::<Seq<char>, u32>::empty());
        assert(Seq::<Seq<char>>::empty().to_set() =~= Set::<Seq<char>>::empty());
    } else {
        data.indexes.segment_refs_by_zone.insert(zone_id.to_owned(), counts);
        if observable_change {
            rebuild_zone_segment_vector(data, zone_id);
        }
    }
    let ghost now = data.indexes.segment_refs_by_zone@;
    proof {
        assert(counts_of(now, zone_id@) == after);
        assert forall|zone: Seq<char>| zone != zone_id@ implies #[trigger] counts_of(now, zone) == counts_of(refs, zone) by {}
        assert forall|zone: Seq<char>| positive(#[trigger] counts_of(now, zone)) by {
            if zone != zone_id@ {
                assert(positive(counts_of(refs, zone)));
            }
        }
        assert forall|zone: Seq<char>| lists(
            #[trigger] list_at(data.indexes.segments_by_zone@, zone),
            counts_of(now, zone).dom(),
        ) by {
            assert(lists(list_at(listed, zone), counts_of(refs, zone).dom()));
            if zone != zone_id@ {
                assert(data.indexes.segments_by_zone@.remove(zone_id@) =~= listed.remove(zone_id@));
                assert(data.indexes.segments_by_zone@.remove(zone_id@).contains_key(zone) == listed.remove(
                    zone_id@,
                ).contains_key(zone));
                assert(listed.contains_key(zone) ==> data.indexes.segments_by_zone@.remove(zone_id@)[zone]
                    == listed.remove(zone_id@)[zone]);
            } else if after.dom() != Set::<Seq<char>>::empty() && !observable_change {
                assert(after.dom() =~= before.dom()) by {
                    assert forall|s: Seq<char>| after.dom().contains(s) <==> before.dom().contains(s) by {
                        assert(count_at(after, s) > 0 <==> after.contains_key(s));
                        assert(count_at(before, s) > 0 <==> before.contains_key(s));
                        assert(segments.set@.to_set().contains(s) ==> count_at(before, s) != 1);
                    }
                }
            }
        }
    }
    observable_change
}

/// The owners once a new shard record is there.
proof fn lemma_owners_insert(
    shards: Map<Seq<char>, ShardView>,
    shard: Seq<char>,
    record: ShardView,
    zone: Seq<char>,
    segment: Seq<char>,
)
    requires
        !shards.contains_key(shard),
    ensures
        owners(shards.insert(shard, record), zone, segment) == if record.zone == zone && record.set.contains(segment) {
            owners(shards, zone, segment).insert(shard)
        } else {
            owners(shards, zone, segment)
        },
        !owners(shards, zone, segment).contains(shard),
{
    let all = shards.insert(shard, record);
    assert(owners(all, zone, segment) =~= if record.zone == zone && record.set.contains(segment) {
        owners(shards, zone, segment).insert(shard)
    } else {
        owners(shards, zone, segment)
    });
}

/// Counting up a new shard's segments in its zone counts its ownership.
pub proof fn lemma_owners_added(
    before: Map<Seq<char>, Map<Seq<char>, u32>>,
    after: Map<Seq<char>, Map<Seq<char>, u32>>,
    shards: Map<Seq<char>, ShardView>,
    shard: Seq<char>,
    record: ShardView,
)
    requires
        owners_counted(before, shards),
        !shards.contains_key(shard),
        all_positive(after),
        counted_up(counts_of(before, record.zone), counts_of(after, record.zone), record.set),
        forall|zone: Seq<char>| zone != record.zone ==> #[trigger] counts_of(after, zone) == counts_of(before, zone),
    ensures
        owners_counted(after, shards.insert(shard, record)),
{
    let all = shards.insert(shard, record);
    assert forall|zone: Seq<char>, segment: Seq<char>|
        (#[trigger] owners(all, zone, segment)).finite() && count_at(counts_of(after, zone), segment) == owners(
            all,
            zone,
            segment,
        ).len() by {
        lemma_owners_insert(shards, shard, record, zone, segment);
        assert(owners(shards, zone, segment).finite() && count_at(counts_of(before, zone), segment) == owners(
            shards,
            zone,
            segment,
        ).len());
        if zone == record.zone {
            assert(count_at(counts_of(after, zone), segment) == count_at(counts_of(before, zone), segment)
                + if record.set.contains(segment) {
                1nat
            } else {
                0nat
            });
        } else {
            assert(counts_of(after, zone) == counts_of(before, zone));
        }
    }
}

/// A new shard's segments can still be counted up if the result fits.
pub proof fn lemma_owners_bound(
    refs: Map<Seq<char>, Map<Seq<char>, u32>>,
    shards: Map<Seq<char>, ShardView>,
    shard: Seq<char>,
    record: ShardView,
)
    requires
        owners_counted(refs, shards),
        !shards.contains_key(shard),
        counts_fit(shards.insert(shard, record)),
    ensures
        forall|segment: Seq<char>|
            record.set.contains(segment) ==> #[trigger] count_at(counts_of(refs, record.zone), segment) < u32::MAX,
{
    assert forall|segment: Seq<char>| record.set.contains(segment) implies #[trigger] count_at(
        counts_of(refs, record.zone),
        segment,
    ) < u32::MAX by {
        lemma_owners_insert(shards, shard, record, record.zone, segment);
        assert(owners(shards, record.zone, segment).finite());
        assert(owners(shards.insert(shard, record), record.zone, segment).len() <= u32::MAX);
    }
}

/// Counting down a shard's segments in its zone takes its ownership out.
pub proof fn lemma_owners_removed(
    before: Map<Seq<char>, Map<Seq<char>, u32>>,
    after: Map<Seq<char>, Map<Seq<char>, u32>>,
    shards: Map<Seq<char>, ShardView>,
    shard: Seq<char>,
)
    requires
        owners_counted(before, shards),
        shards.contains_key(shard),
        all_positive(after),
        counted_down(counts_of(before, shards[shard].zone), counts_of(after, shards[shard].zone), shards[shard].set),
        forall|zone: Seq<char>|
            zone != shards[shard].zone ==> #[trigger] counts_of(after, zone) == counts_of(before, zone),
    ensures
        owners_counted(after, shards.remove(shard)),
{
    let rest = shards.remove(shard);
    let record = shards[shard];
    assert(rest.insert(shard, record) =~= shards);
    assert forall|zone: Seq<char>, segment: Seq<char>|
        (#[trigger] owners(rest, zone, segment)).finite() && count_at(counts_of(after, zone), segment) == owners(
            rest,
            zone,
            segment,
        ).len() by {
        lemma_owners_insert(rest, shard, record, zone, segment);
        assert(owners(shards, zone, segment).finite() && count_at(counts_of(before, zone), segment) == owners(
            shards,
            zone,
            segment,
        ).len());
        assert(owners(rest, zone, segment) =~= owners(shards, zone, segment).remove(shard));
        if zone == record.zone {
            assert(count_at(counts_of(after, zone), segment) == count_at(counts_of(before, zone), segment)
                - if record.set.contains(segment) && count_at(counts_of(before, zone), segment) > 0 {
                1nat
            } else {
                0nat
            });
        } else {
            assert(counts_of(after, zone) == counts_of(before, zone));
        }
    }
}

/// Owners that were counted can be counted with 32 bits.
pub proof fn lemma_counted_fits(refs: Map<Seq<char>, Map<Seq<char>, u32>>, shards: Map<Seq<char>, ShardView>)
    requires
        owners_counted(refs, shards),
    ensures
        counts_fit(shards),
{
    assert forall|zone: Seq<char>, segment: Seq<char>| (#[trigger] owners(shards, zone, segment)).len() <= u32::MAX by {
        assert(count_at(counts_of(refs, zone), segment) == owners(shards, zone, segment).len());
    }
}

/// As few shards as 32 bits can count are few enough for every count.
pub proof fn lemma_counts_fit(shards: Map<Seq<char>, ShardView>)
    requires
        shards.dom().finite(),
        shards.dom().len() <= u32::MAX,
    ensures
        counts_fit(shards),
{
    assert forall|zone: Seq<char>, segment: Seq<char>| (#[trigger] owners(shards, zone, segment)).len() <= u32::MAX by {
        assert(owners(shards, zone, segment).subset_of(shards.dom()));
        vstd::set_lib::lemma_len_subset(owners(shards, zone, segment), shards.dom());
    }
}

/// Counts the owners of every segment in every zone.
pub fn count_owners(by_shard: &NameMap<ShardSegments>) -> (r: NameMap<NameMap<u32>>)
    requires
        counts_fit(by_shard@),
    ensures
        owners_counted(r@, by_shard@),
{
    let mut refs: NameMap<NameMap<u32>> = NameMap::new();
    let n: usize = by_shard.len();
    let ghost q = by_shard.key_seq();
    let ghost all = by_shard@;
    proof {
        assert(all.restrict(q.take(0).to_set()) =~= Map::<Seq<char>, ShardView>::empty());
        lemma_none_counted();
    }
    for i in 0..n
        invariant
            n == q.len(),
            q == by_shard.key_seq(),
            all == by_shard@,
            lists(q, all.dom()),
            all.dom().finite(),
            counts_fit(all),
            owners_counted(refs@, all.restrict(q.take(i as int).to_set())),
    {
        let shard = by_shard.value_at(i);
        let ghost some = all.restrict(q.take(i as int).to_set());
        let ghost next = all.restrict(q.take(i + 1).to_set());
        let ghost before = refs@;
        let ghost record = all[q[i as int]];
        proof {
            lemma_prefix_set(q, i as int);
            lemma_prefix_fresh(q, i as int);
            assert(next =~= some.insert(q[i as int], record));
            lemma_counts_fit_part(all, q.take(i + 1).to_set());
            lemma_owners_bound(before, some, q[i as int], record);
        }
        let mut counts = match refs.remove(shard.zone_id.as_str()) {
            Some(counts) => counts,
            None => NameMap::new(),
        };
        assert(counts@ == counts_of(before, record.zone));
        assert(positive(counts_of(before, record.zone)));
        count_up(&mut counts, &shard.segments.set);
        let ghost counted = counts@;
        refs.insert(shard.zone_id.clone(), counts);
        proof {
            assert(counts_of(refs@, record.zone) == counted);
            assert forall|zone: Seq<char>| zone != record.zone implies #[trigger] counts_of(refs@, zone) == counts_of(
                before,
                zone,
            ) by {}
            assert forall|zone: Seq<char>| positive(#[trigger] counts_of(refs@, zone)) by {
                if zone != record.zone {
                    assert(positive(counts_of(before, zone)));
                }
            }
            lemma_owners_added(before, refs@, some, q[i as int], record);
        }
    }
    proof {
        assert(q.take(n as int) =~= q);
        assert(all.restrict(q.to_set()) =~= all);
    }
    refs
}

/// Without shards nothing is counted.
pub proof fn lemma_none_counted()
    ensures
        owners_counted(Map::empty(), Map::empty()),
{
    assert forall|zone: Seq<char>, segment: Seq<char>|
        (#[trigger] owners(Map::empty(), zone, segment)).finite() && count_at(
            counts_of(Map::empty(), zone),
            segment,
        ) == owners(Map::empty(), zone, segment).len() by {
        assert(owners(Map::empty(), zone, segment) =~= Set::<Seq<char>>::empty());
    }
}

/// Fewer shards have no more owners.
proof fn lemma_counts_fit_part(shards: Map<Seq<char>, ShardView>, part: Set<Seq<char>>)
    requires
        counts_fit(shards),
        shards.dom().finite(),
    ensures
        counts_fit(shards.restrict(part)),
{
    let some = shards.restrict(part);
    assert forall|zone: Seq<char>, segment: Seq<char>| (#[trigger] owners(some, zone, segment)).len() <= u32::MAX by {
        let whole = owners(shards, zone, segment);
        assert(whole.len() <= u32::MAX);
        assert(whole.subset_of(shards.dom()));
        vstd::set_lib::lemma_len_subset(whole, shards.dom());
        assert(owners(some, zone, segment).subset_of(whole));
        vstd::set_lib::lemma_len_subset(owners(some, zone, segment), whole);
    }
}

/// A zone's segment list holds exactly the segments that some shard owns there.
proof fn lemma_zone_segments(data: AppData, zone: Seq<char>)
    requires
        data.well_formed(),
    ensures
        lists(list_at(data.indexes.segments_by_zone@, zone), segments_in(data@.shards, zone)),
{
    let refs = data.indexes.segment_refs_by_zone@;
    let counts = counts_of(refs, zone);
    assert(lists(list_at(data.indexes.segments_by_zone@, zone), counts.dom()));
    assert forall|segment: Seq<char>| counts.dom().contains(segment) == segments_in(data@.shards, zone).contains(
        segment,
    ) by {
        let owning = owners(data@.shards, zone, segment);
        assert(owning.finite() && count_at(counts, segment) == owning.len());
        assert(positive(counts));
        if counts.contains_key(segment) {
            assert(owning.len() > 0);
            if forall|shard: Seq<char>| !owning.contains(shard) {
                assert(owning =~= Set::<Seq<char>>::empty());
            }
        }
        if segments_in(data@.shards, zone).contains(segment) {
            let shard = choose|shard: Seq<char>| owning.contains(shard);
            if owning.len() == 0 {
                owning.lemma_len0_is_empty();
            }
        }
    }
    assert(counts.dom() =~= segments_in(data@.shards, zone));
}

/// The distinct segments that some shard of a zone owns.
pub fn zone_segment_list(data: &AppData, zone_id: &str) -> (r: Vec<Segment>)
    requires
        data.well_formed(),
    ensures
        r.deep_view() == listing(segments_in(data@.shards, zone_id@)),
        lists(r.deep_view(), segments_in(data@.shards, zone_id@)),
{
    proof {
        lemma_zone_segments(*data, zone_id@);
        lemma_listing(
            list_at(data.indexes.segments_by_zone@, zone_id@),
            segments_in(data@.shards, zone_id@),
        );
    }
    let segments: Vec<Segment> = match data.indexes.segments_by_zone.get(zone_id) {
        Some(segments) => segments.duplicate(),
        None => Vec::new(),
    };
    assert(segments.deep_view() =~= list_at(data.indexes.segments_by_zone@, zone_id@));
    segments
}

} // verus!
