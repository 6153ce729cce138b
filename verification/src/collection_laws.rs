//! What sets of points, groups by key and records by id hold after each of
//! their operations.
use crate::aggregator::lemma_listed;
use crate::assoc::lists_values_of;
use crate::content_laws::{equal_keys, law_equal_keys};
use crate::groups::{keyed_groups, GroupKey, GroupKeyView, GroupMap, Hits};
use crate::point::{ExtendedPointId, Record, ScoredPoint};
use crate::records::{found_records, RecordMap};
use crate::shard_laws::{are_all_records, are_records_of, have_record, lemma_places_of_records};
use crate::terms::picks;
use crate::views::seq_view;
use vstd::prelude::*;

verus! {

/// A set of points lists each of its points once, under the id of the point and
/// with all its parts.
pub proof fn law_points_of_set(hits: &Hits, points: &Vec<ScoredPoint>)
    requires
        hits.wf(),
        call_ensures(Hits::points, (hits,), points),
    ensures
        forall|i: int|
            0 <= i < points@.len() ==> hits@.contains_key((#[trigger] points@[i]).id)
                && hits@[points@[i].id] == points@[i]@,
        forall|i: int, j: int|
            0 <= i < j < points@.len() ==> (#[trigger] points@[i]).id != (
            #[trigger] points@[j]).id,
        forall|id: ExtendedPointId| #[trigger]
            hits@.contains_key(id) ==> exists|i: int|
                0 <= i < points@.len() && (#[trigger] points@[i]).id == id,
{
    let views = seq_view(points@);
    let ids = choose|ids: Seq<ExtendedPointId>| lists_values_of(views, hits@, ids);
    hits.lemma_ids();
    assert forall|i: int| 0 <= i < points@.len() implies (#[trigger] points@[i]).id == ids[i]
        && hits@.contains_key(ids[i]) && hits@[ids[i]] == points@[i]@ by {
        assert(views[i] == points@[i]@);
        assert(views[i] == hits@[ids[i]]);
        assert(ids.to_set().contains(ids[i]));
        assert(hits@[ids[i]].id == ids[i]);
        crate::content_laws::law_contents_of_point(points@[i]);
    }
    assert forall|i: int, j: int| 0 <= i < j < points@.len() implies (#[trigger] points@[i]).id != (
    #[trigger] points@[j]).id by {
        assert(ids[i] != ids[j]);
    }
    assert forall|id: ExtendedPointId| #[trigger] hits@.contains_key(id) implies exists|i: int|
        0 <= i < points@.len() && (#[trigger] points@[i]).id == id by {
        assert(ids.to_set().contains(id));
        let i = choose|i: int| 0 <= i < ids.len() && ids[i] == id;
        assert(points@[i].id == id);
    }
}

/// A set has as many points as it lists.
pub proof fn law_size_of_set(hits: &Hits, len: usize, points: &Vec<ScoredPoint>)
    requires
        hits.wf(),
        call_ensures(Hits::len, (hits,), len),
        call_ensures(Hits::points, (hits,), points),
    ensures
        len == points@.len(),
{
    crate::assoc::law_listing(seq_view(points@), hits@);
}

/// A new set has no points.
pub proof fn law_new_set(hits: Hits, points: &Vec<ScoredPoint>)
    requires
        call_ensures(Hits::new, (), hits),
        call_ensures(Hits::points, (&hits,), points),
    ensures
        hits.wf(),
        points@.len() == 0,
{
    crate::assoc::law_listing(seq_view(points@), hits@);
}

/// A set contains a point if it lists one with the same id.
pub proof fn law_set_contains(
    hits: &Hits,
    point: &ScoredPoint,
    found: bool,
    points: &Vec<ScoredPoint>,
)
    requires
        hits.wf(),
        call_ensures(Hits::contains, (hits, point), found),
        call_ensures(Hits::points, (hits,), points),
    ensures
        found <==> exists|i: int| 0 <= i < points@.len() && (#[trigger] points@[i]).id == point.id,
{
    law_points_of_set(hits, points);
}

/// A point is added to a set unless one with its id is there. No other point
/// comes, goes or changes.
pub proof fn law_insert_into_set(hits: &mut Hits, point: ScoredPoint, added: bool)
    requires
        call_ensures(Hits::insert, (hits, point), added),
    ensures
        final(hits).wf(),
        added == !old(hits)@.contains_key(point.id),
        final(hits)@.contains_key(point.id),
        added ==> final(hits)@[point.id] == point@,
        !added ==> final(hits)@[point.id] == old(hits)@[point.id],
        forall|id: ExtendedPointId|
            #![trigger final(hits)@.contains_key(id)]
            id != point.id ==> final(hits)@.contains_key(id) == old(hits)@.contains_key(id)
                && final(hits)@[id] == old(hits)@[id],
{
}

/// A point takes the place of the one with its id, which is handed back. No
/// other point comes, goes or changes.
pub proof fn law_replace_in_set(
    hits: &mut Hits,
    point: ScoredPoint,
    replaced: Option<ScoredPoint>,
)
    requires
        call_ensures(Hits::replace, (hits, point), replaced),
    ensures
        final(hits).wf(),
        final(hits)@.contains_key(point.id),
        final(hits)@[point.id] == point@,
        replaced is Some == old(hits)@.contains_key(point.id),
        replaced is Some ==> replaced->Some_0@ == old(hits)@[point.id],
        forall|id: ExtendedPointId|
            #![trigger final(hits)@.contains_key(id)]
            id != point.id ==> final(hits)@.contains_key(id) == old(hits)@.contains_key(id)
                && final(hits)@[id] == old(hits)@[id],
{
}

/// Groups are listed each once, with the key that was first given and all their
/// points. No two keys are equal.
pub proof fn law_listed_groups(groups: &GroupMap, listed: &Vec<(GroupKey, Hits)>)
    requires
        groups.wf(),
        call_ensures(GroupMap::groups, (groups,), listed),
    ensures
        forall|i: int|
            0 <= i < listed@.len() ==> {
                &&& groups@.contains_key((#[trigger] listed@[i]).0@.canonical())
                &&& groups@[listed@[i].0@.canonical()].key == listed@[i].0@
                &&& groups@[listed@[i].0@.canonical()].hits == listed@[i].1@
            },
        forall|i: int, j: int|
            0 <= i < j < listed@.len() ==> !equal_keys(
                (#[trigger] listed@[i]).0@,
                (#[trigger] listed@[j]).0@,
            ),
        forall|k: GroupKeyView| #[trigger]
            groups@.contains_key(k) ==> exists|i: int|
                0 <= i < listed@.len() && (#[trigger] listed@[i]).0@.canonical() == k,
{
    let keyed = keyed_groups(listed@);
    assert forall|i: int| 0 <= i < listed@.len() implies {
        &&& groups@.contains_key((#[trigger] listed@[i]).0@.canonical())
        &&& groups@[listed@[i].0@.canonical()].key == listed@[i].0@
        &&& groups@[listed@[i].0@.canonical()].hits == listed@[i].1@
    } by {
        lemma_listed(groups, i);
    }
    assert forall|i: int, j: int| 0 <= i < j < listed@.len() implies !equal_keys(
        (#[trigger] listed@[i]).0@,
        (#[trigger] listed@[j]).0@,
    ) by {
        assert(keyed[i].0 != keyed[j].0);
        law_equal_keys(listed@[i].0@, listed@[j].0@);
    }
    assert forall|k: GroupKeyView| #[trigger] groups@.contains_key(k) implies exists|i: int|
        0 <= i < listed@.len() && (#[trigger] listed@[i]).0@.canonical() == k by {
        let i = choose|i: int| 0 <= i < keyed.len() && (#[trigger] keyed[i]).0 == k;
        assert(listed@[i].0@.canonical() == k);
    }
}

/// There are as many groups as are listed.
pub proof fn law_number_of_groups(
    groups: &GroupMap,
    len: usize,
    listed: &Vec<(GroupKey, Hits)>,
)
    requires
        call_ensures(GroupMap::len, (groups,), len),
        call_ensures(GroupMap::groups, (groups,), listed),
    ensures
        len == listed@.len(),
{
}

/// A new map has no groups.
pub proof fn law_new_groups(groups: GroupMap, key: &GroupKey, found: bool)
    requires
        call_ensures(GroupMap::new, (), groups),
        call_ensures(GroupMap::contains_key, (&groups, key), found),
    ensures
        groups.wf(),
        !found,
{
}

/// The points under a key are those of the listed group whose key is equal to
/// it; there are none if there is no such group.
pub proof fn law_group_of_key(
    groups: &GroupMap,
    key: &GroupKey,
    found: bool,
    hits: Option<&Hits>,
    listed: &Vec<(GroupKey, Hits)>,
)
    requires
        groups.wf(),
        call_ensures(GroupMap::contains_key, (groups, key), found),
        call_ensures(GroupMap::get, (groups, key), hits),
        call_ensures(GroupMap::groups, (groups,), listed),
    ensures
        found == hits is Some,
        hits is Some <==> exists|i: int|
            0 <= i < listed@.len() && equal_keys((#[trigger] listed@[i]).0@, key@),
        forall|i: int|
            0 <= i < listed@.len() && equal_keys((#[trigger] listed@[i]).0@, key@) ==> hits is Some
                && hits->Some_0@ == listed@[i].1@,
{
    law_listed_groups(groups, listed);
    assert forall|i: int| 0 <= i < listed@.len() implies equal_keys(
        (#[trigger] listed@[i]).0@,
        key@,
    ) == (listed@[i].0@.canonical() == key@.canonical()) by {
        law_equal_keys(listed@[i].0@, key@);
    }
    if groups@.contains_key(key@.canonical()) {
        let i = choose|i: int|
            0 <= i < listed@.len() && (#[trigger] listed@[i]).0@.canonical() == key@.canonical();
        assert(equal_keys(listed@[i].0@, key@));
    }
}

/// Points that are put under a key take the place of those that are there,
/// which are handed back; the key that was first given stays. No other group
/// comes, goes or changes.
pub proof fn law_insert_group(
    groups: &mut GroupMap,
    key: GroupKey,
    hits: Hits,
    replaced: Option<Hits>,
)
    requires
        call_ensures(GroupMap::insert, (groups, key, hits), replaced),
    ensures
        final(groups).wf(),
        final(groups)@.contains_key(key@.canonical()),
        final(groups)@[key@.canonical()].hits == hits@,
        old(groups)@.contains_key(key@.canonical()) ==> final(groups)@[key@.canonical()].key
            == old(groups)@[key@.canonical()].key,
        !old(groups)@.contains_key(key@.canonical()) ==> final(groups)@[key@.canonical()].key
            == key@,
        replaced is Some == old(groups)@.contains_key(key@.canonical()),
        replaced is Some ==> replaced->Some_0@ == old(groups)@[key@.canonical()].hits,
        forall|k: GroupKeyView|
            #![trigger final(groups)@.contains_key(k)]
            k != key@.canonical() ==> final(groups)@.contains_key(k) == old(groups)@.contains_key(k)
                && final(groups)@[k] == old(groups)@[k],
{
}

/// The points under a key can be changed in their place; a group without points
/// is made for a key that has none. No other group comes, goes or changes.
pub proof fn law_entry_of_group(groups: &mut GroupMap, key: GroupKey, hits: &mut Hits)
    requires
        call_ensures(GroupMap::entry, (groups, key), hits),
    ensures
        old(groups)@.contains_key(key@.canonical()) ==> old(hits)@
            == old(groups)@[key@.canonical()].hits && final(groups)@[key@.canonical()].key
            == old(groups)@[key@.canonical()].key,
        !old(groups)@.contains_key(key@.canonical()) ==> old(hits)@.dom() == Set::<
            ExtendedPointId,
        >::empty() && final(groups)@[key@.canonical()].key == key@,
        final(groups)@.contains_key(key@.canonical()),
        final(groups)@[key@.canonical()].hits == final(hits)@,
        forall|k: GroupKeyView|
            #![trigger final(groups)@.contains_key(k)]
            k != key@.canonical() ==> final(groups)@.contains_key(k) == old(groups)@.contains_key(k)
                && final(groups)@[k] == old(groups)@[k],
{
}

/// The points of a listed group can be changed in their place; no key and no
/// other group changes.
pub proof fn law_listed_points_can_be_changed(
    groups: &mut GroupMap,
    index: usize,
    hits: &mut Hits,
    before: &Vec<(GroupKey, Hits)>,
    after: &Vec<(GroupKey, Hits)>,
)
    requires
        call_ensures(GroupMap::hits_mut, (groups, index), hits),
        call_ensures(GroupMap::groups, (&*old(groups),), before),
        call_ensures(GroupMap::groups, (&*final(groups),), after),
        index < before@.len(),
    ensures
        *old(hits) == before@[index as int].1,
        after@.len() == before@.len(),
        after@[index as int].0 == before@[index as int].0,
        after@[index as int].1 == *final(hits),
        forall|i: int|
            0 <= i < before@.len() && i != index ==> #[trigger] after@[i] == before@[i],
{
}

/// A new map has no records.
pub proof fn law_new_records(records: RecordMap, id: ExtendedPointId, record: Option<&Record>)
    requires
        call_ensures(RecordMap::new, (), records),
        call_ensures(RecordMap::get, (&records, id), record),
    ensures
        records.wf(),
        record is None,
{
}

/// A record that is put under an id is found there, with all its parts; the one
/// that was there before is handed back. Under other ids nothing changes.
pub proof fn law_record_is_found_under_its_id(
    records: &mut RecordMap,
    id: ExtendedPointId,
    record: Record,
    replaced: Option<Record>,
    other: ExtendedPointId,
    before: Option<&Record>,
    after: Option<&Record>,
)
    requires
        call_ensures(RecordMap::get, (&*old(records), other), before),
        call_ensures(RecordMap::insert, (records, id, record), replaced),
        call_ensures(RecordMap::get, (&*final(records), other), after),
    ensures
        final(records).wf(),
        final(records)@.contains_key(id),
        final(records)@[id] == record@,
        other == id ==> after is Some && after->Some_0@ == record@,
        other == id ==> replaced is Some == before is Some,
        other == id && replaced is Some ==> replaced->Some_0@ == before->Some_0@,
        other != id ==> after is Some == before is Some,
        other != id && after is Some ==> after->Some_0@ == before->Some_0@,
        other != id ==> final(records)@.contains_key(other) == old(records)@.contains_key(other)
            && final(records)@[other] == old(records)@[other],
{
}

/// The record for an id is the one that stands under it.
pub proof fn law_record_of_id(records: &RecordMap, id: ExtendedPointId, record: Option<&Record>)
    requires
        call_ensures(RecordMap::get, (records, id), record),
    ensures
        record is Some == records@.contains_key(id),
        record is Some ==> record->Some_0@ == records@[id],
{
}

/// Records come in the order of the ids that are given; an id without a record
/// is passed over.
pub proof fn law_records_in_order_of_ids(
    records: &RecordMap,
    ids: &Vec<ExtendedPointId>,
    found: Vec<Record>,
)
    requires
        call_ensures(RecordMap::in_order_of, (records, ids), found),
    ensures
        are_records_of(found@, ids@, records@),
{
    let at = lemma_places_of_records(ids@, records@);
    assert(seq_view(found@) == found_records(ids@, records@));
    assert(found@.len() == seq_view(found@).len());
    assert forall|j: int| 0 <= j < at.len() implies (#[trigger] found@[j])@
        == records@[ids@[at[j]]] by {
        assert(seq_view(found@)[j] == found@[j]@);
    }
    assert(picks(at, ids@.len(), have_record(ids@, records@)));
}

/// All records come, each once.
pub proof fn law_all_records_of_map(records: RecordMap, found: Vec<Record>)
    requires
        call_ensures(RecordMap::into_values, (records,), found),
    ensures
        are_all_records(found@, records@),
{
    let ids = choose|ids: Seq<ExtendedPointId>|
        lists_values_of(seq_view(found@), records@, ids);
    assert(found@.len() == seq_view(found@).len());
    assert forall|id: ExtendedPointId| #[trigger]
        records@.contains_key(id) <==> ids.contains(id) by {
        assert(ids.to_set().contains(id) <==> records@.dom().contains(id));
    }
    assert forall|j: int| 0 <= j < ids.len() implies (#[trigger] found@[j])@ == records@[ids[j]] by {
        assert(seq_view(found@)[j] == found@[j]@);
    }
    assert(ids.no_duplicates());
}

} // verus!
