//! What each operation on an aggregator does to its groups, and what is read
//! from them.
use crate::aggregator::{all_hits, GroupsAggregator};
use crate::assoc::lists_values_of;
use crate::content_laws::law_contents_of_point;
use crate::grouping_laws::lemma_latest;
use crate::groups::{GroupKeyView, GroupMap, GroupView};
use crate::json::{values_under, Payload, Value, ValueView};
use crate::point::{ExtendedPointId, ScoredPoint, ScoredPointView};
use crate::views::seq_view;
use vstd::prelude::*;

verus! {

/// A new aggregator has no groups, and has the limits and the key that it was
/// given.
pub proof fn law_new_aggregator(
    groups: usize,
    group_size: usize,
    grouped_by: String,
    aggregator: GroupsAggregator,
)
    requires
        call_ensures(GroupsAggregator::new, (groups, group_size, grouped_by), aggregator),
    ensures
        aggregator.wf(),
        aggregator.groups@.dom() == Set::<GroupKeyView>::empty(),
        aggregator.max_groups == groups,
        aggregator.max_group_size == group_size,
        aggregator.grouped_by@ == grouped_by@,
{
}

/// Whether `key` is the key that a value is: a number or a string.
pub open spec fn is_key(value: ValueView, key: GroupKeyView) -> bool {
    match (value, key) {
        (ValueView::Number(a), GroupKeyView::Number(b)) => a == b,
        (ValueView::String(a), GroupKeyView::String(b)) => a == b,
        _ => false,
    }
}

/// Whether the groups `after` are the groups `before` when `point` was offered
/// to the group of `key`.
///
/// No other group changes. A group that is there keeps its key, and takes the
/// point unless it holds `max_group_size` points or one with the same id. A
/// group that is not there is opened for the point unless there are
/// `max_groups` groups; it takes the point unless groups hold no points.
pub open spec fn was_offered(
    before: Map<GroupKeyView, GroupView>,
    after: Map<GroupKeyView, GroupView>,
    max_groups: nat,
    max_group_size: nat,
    point: ScoredPointView,
    key: GroupKeyView,
) -> bool {
    let k = key.canonical();
    let held = before[k].hits;
    &&& forall|other: GroupKeyView|
        #![trigger after.contains_key(other)]
        other != k ==> after.contains_key(other) == before.contains_key(other) && (
        before.contains_key(other) ==> after[other] == before[other])
    &&& before.contains_key(k) ==> after.contains_key(k) && after[k].key == before[k].key
    &&& before.contains_key(k) && (held.len() == max_group_size || held.contains_key(point.id))
        ==> after[k].hits == held
    &&& before.contains_key(k) && held.len() != max_group_size && !held.contains_key(point.id)
        ==> after[k].hits == held.insert(point.id, point)
    &&& !before.contains_key(k) && before.len() >= max_groups ==> !after.contains_key(k)
    &&& !before.contains_key(k) && before.len() < max_groups ==> after.contains_key(k)
        && after[k].key == key && after[k].hits == if max_group_size == 0 {
        Map::<ExtendedPointId, ScoredPointView>::empty()
    } else {
        Map::<ExtendedPointId, ScoredPointView>::empty().insert(point.id, point)
    }
}

/// A point is offered to the group of the first of its values, if that is a
/// number or a string. Otherwise nothing changes. The limits and the key of the
/// aggregator stay.
pub proof fn law_point_is_offered_by_its_first_value(
    aggregator: &mut GroupsAggregator,
    point: &ScoredPoint,
    values: &Vec<Value>,
    key: GroupKeyView,
)
    requires
        call_ensures(GroupsAggregator::add_point_with_values, (aggregator, point, values), ()),
    ensures
        final(aggregator).wf(),
        final(aggregator).max_groups == old(aggregator).max_groups,
        final(aggregator).max_group_size == old(aggregator).max_group_size,
        final(aggregator).grouped_by@ == old(aggregator).grouped_by@,
        values@.len() == 0 || !(values@[0] is Number || values@[0] is String)
            ==> final(aggregator).groups@ == old(aggregator).groups@,
        values@.len() > 0 && is_key(values@[0]@, key) ==> was_offered(
            old(aggregator).groups@,
            final(aggregator).groups@,
            old(aggregator).max_groups as nat,
            old(aggregator).max_group_size as nat,
            point@,
            key,
        ),
{
    assert(seq_view(values@).len() == values@.len());
    if values@.len() > 0 {
        assert(seq_view(values@)[0] == values@[0]@);
    }
    assert(final(aggregator)@.groups == final(aggregator).groups@);
    assert(old(aggregator)@.groups == old(aggregator).groups@);
}

/// The first value of a key is that of the first entry with the key.
proof fn lemma_first_value(payload: Payload, key: Seq<char>, n: int)
    requires
        0 <= n <= payload.entries@.len(),
    ensures
        (forall|i: int| 0 <= i < n ==> (#[trigger] payload.entries@[i]).0@ != key) ==> values_under(
            payload@.take(n),
            key,
        ).len() == 0,
        forall|i: int|
            0 <= i < n && (#[trigger] payload.entries@[i]).0@ == key && (forall|j: int|
                0 <= j < i ==> (#[trigger] payload.entries@[j]).0@ != key) ==> values_under(
                payload@.take(n),
                key,
            ).len() > 0 && values_under(payload@.take(n), key)[0] == payload.entries@[i].1@,
    decreases n,
{
    if n > 0 {
        lemma_first_value(payload, key, n - 1);
        let entries = payload@.take(n);
        assert(entries.drop_last() =~= payload@.take(n - 1));
        assert(entries.last() == payload@[n - 1]);
        assert(payload@[n - 1].0 == payload.entries@[n - 1].0@);
        assert(payload@[n - 1].1 == payload.entries@[n - 1].1@);
    }
}

/// A point is offered to the group that the first entry of its payload with the
/// key `grouped_by` names, if that is a number or a string. A point without
/// such an entry changes nothing. The limits and the key of the aggregator stay.
pub proof fn law_point_is_offered_by_its_payload(
    aggregator: &mut GroupsAggregator,
    point: &ScoredPoint,
    i: int,
    key: GroupKeyView,
)
    requires
        call_ensures(GroupsAggregator::add_point, (aggregator, point), ()),
    ensures
        final(aggregator).wf(),
        final(aggregator).max_groups == old(aggregator).max_groups,
        final(aggregator).max_group_size == old(aggregator).max_group_size,
        final(aggregator).grouped_by@ == old(aggregator).grouped_by@,
        point.payload is None ==> final(aggregator).groups@ == old(aggregator).groups@,
        point.payload matches Some(payload) ==> {
            let entries = payload.entries@;
            let grouped_by = old(aggregator).grouped_by@;
            let comes_first = 0 <= i < entries.len() && entries[i].0@ == grouped_by && forall|
                j: int,
            | 0 <= j < i ==> (#[trigger] entries[j]).0@ != grouped_by;
            &&& (forall|j: int|
                0 <= j < entries.len() ==> (#[trigger] entries[j]).0@ != grouped_by)
                ==> final(aggregator).groups@ == old(aggregator).groups@
            &&& comes_first && !(entries[i].1 is Number || entries[i].1 is String)
                ==> final(aggregator).groups@ == old(aggregator).groups@
            &&& comes_first && is_key(entries[i].1@, key) ==> was_offered(
                old(aggregator).groups@,
                final(aggregator).groups@,
                old(aggregator).max_groups as nat,
                old(aggregator).max_group_size as nat,
                point@,
                key,
            )
        },
{
    if let Some(payload) = point.payload {
        let n = payload.entries@.len() as int;
        lemma_first_value(payload, old(aggregator).grouped_by@, n);
        assert(payload@.take(n) =~= payload@);
        assert(point@.payload == Some(payload@));
        if 0 <= i < n {
            assert(payload.entries@[i] == payload.entries@[i]);
        }
    }
    assert(final(aggregator)@.groups == final(aggregator).groups@);
    assert(old(aggregator)@.groups == old(aggregator).groups@);
}

/// No points change nothing.
pub proof fn law_no_points_change_nothing(
    aggregator: &mut GroupsAggregator,
    points: &[ScoredPoint],
    valued: &mut GroupsAggregator,
    values: &Vec<Vec<Value>>,
)
    requires
        points@.len() == 0,
        call_ensures(GroupsAggregator::add_points, (aggregator, points), ()),
        call_ensures(GroupsAggregator::add_points_with_values, (valued, points, values), ()),
    ensures
        final(aggregator)@ == old(aggregator)@,
        final(valued)@ == old(valued)@,
{
}

/// Points are added one after another: adding several is adding all but the
/// last, and then the last.
pub proof fn law_points_are_added_in_turn(
    all: &mut GroupsAggregator,
    points: &[ScoredPoint],
    most: &mut GroupsAggregator,
    first_points: &[ScoredPoint],
    one: &mut GroupsAggregator,
    last: &ScoredPoint,
)
    requires
        points@ == first_points@.push(*last),
        call_ensures(GroupsAggregator::add_points, (all, points), ()),
        call_ensures(GroupsAggregator::add_points, (most, first_points), ()),
        call_ensures(GroupsAggregator::add_point, (one, last), ()),
        old(most)@ == old(all)@,
        old(one)@ == final(most)@,
    ensures
        final(all)@ == final(one)@,
        final(all)@.grouped_by == old(all)@.grouped_by,
    decreases points@.len(),
{
    let views = seq_view(points@);
    assert(views.drop_last() =~= seq_view(first_points@));
    assert(views.last() == last@);
    lemma_same_key(old(all)@, seq_view(first_points@));
}

/// Adding points keeps the key by which they are grouped.
proof fn lemma_same_key(view: crate::aggregator::AggregatorView, points: Seq<ScoredPointView>)
    ensures
        view.with_points(points).grouped_by == view.grouped_by,
    decreases points.len(),
{
    if points.len() > 0 {
        lemma_same_key(view, points.drop_last());
    }
}

/// Points are added one after another, each with its own values: adding several
/// is adding all but the last, and then the last.
pub proof fn law_valued_points_are_added_in_turn(
    all: &mut GroupsAggregator,
    points: &[ScoredPoint],
    values: &Vec<Vec<Value>>,
    most: &mut GroupsAggregator,
    first_points: &[ScoredPoint],
    first_values: &Vec<Vec<Value>>,
    one: &mut GroupsAggregator,
    last: &ScoredPoint,
    last_values: &Vec<Value>,
)
    requires
        points@ == first_points@.push(*last),
        values@ == first_values@.push(*last_values),
        points@.len() == values@.len(),
        call_ensures(GroupsAggregator::add_points_with_values, (all, points, values), ()),
        call_ensures(
            GroupsAggregator::add_points_with_values,
            (most, first_points, first_values),
            (),
        ),
        call_ensures(GroupsAggregator::add_point_with_values, (one, last, last_values), ()),
        old(most)@ == old(all)@,
        old(one)@ == final(most)@,
    ensures
        final(all)@ == final(one)@,
{
    let views = seq_view(points@);
    let found = crate::aggregator::values_view(values@);
    assert(views.drop_last() =~= seq_view(first_points@));
    assert(views.last() == last@);
    assert(found.drop_last() =~= crate::aggregator::values_view(first_values@));
    assert(found.last() == seq_view(last_values@));
}

/// The number of groups is the number of keys that have one.
pub proof fn law_number_of_keys(aggregator: &GroupsAggregator, len: usize)
    requires
        call_ensures(GroupsAggregator::len, (aggregator,), len),
    ensures
        len == aggregator.groups@.dom().len(),
{
}

/// The groups that are handed out are those of the aggregator.
pub proof fn law_groups_are_handed_out(aggregator: &GroupsAggregator, groups: &GroupMap)
    requires
        call_ensures(GroupsAggregator::groups, (aggregator,), groups),
    ensures
        *groups == aggregator.groups,
{
}

/// Whether `values` are the keys of the groups that are wanted, each once.
pub open spec fn are_keys_of(
    values: Seq<Value>,
    groups: Map<GroupKeyView, GroupView>,
    wanted: spec_fn(GroupView) -> bool,
) -> bool {
    exists|keys: Seq<GroupKeyView>|
        #[trigger] keys.no_duplicates() && keys.len() == values.len() && (forall|k: GroupKeyView|
            #[trigger] keys.contains(k) <==> groups.contains_key(k) && wanted(groups[k])) && forall|
            j: int,
        | 0 <= j < keys.len() ==> is_key((#[trigger] values[j])@, groups[keys[j]].key)
}

/// Listed values are keys of groups.
proof fn lemma_keys_of(
    values: Seq<Value>,
    groups: Map<GroupKeyView, GroupView>,
    filled: nat,
    full: bool,
    wanted: spec_fn(GroupView) -> bool,
)
    requires
        crate::assoc::lists_values(
            seq_view(values),
            crate::aggregator::key_values(groups, filled, full),
        ),
        forall|group: GroupView| #[trigger] wanted(group) == ((group.hits.len() >= filled) == full),
    ensures
        are_keys_of(values, groups, wanted),
{
    let listed = crate::aggregator::key_values(groups, filled, full);
    let keys = choose|keys: Seq<GroupKeyView>| lists_values_of(seq_view(values), listed, keys);
    assert(values.len() == seq_view(values).len());
    assert forall|k: GroupKeyView| #[trigger]
        keys.contains(k) <==> groups.contains_key(k) && wanted(groups[k]) by {
        assert(keys.to_set().contains(k) <==> listed.dom().contains(k));
    }
    assert forall|j: int| 0 <= j < keys.len() implies is_key(
        (#[trigger] values[j])@,
        groups[keys[j]].key,
    ) by {
        assert(seq_view(values)[j] == values[j]@);
        assert(seq_view(values)[j] == listed[keys[j]]);
        assert(keys.contains(keys[j]));
    }
    assert(keys.no_duplicates());
}

/// The keys of unfilled groups are the keys of the groups with fewer points than
/// `max_group_size`; those of filled groups are the keys of the others. Each
/// comes once, so that together there are as many as there are groups.
pub proof fn law_keys_of_filled_and_unfilled_groups(
    aggregator: &GroupsAggregator,
    unfilled: Vec<Value>,
    filled: Vec<Value>,
)
    requires
        aggregator.wf(),
        call_ensures(GroupsAggregator::keys_of_unfilled_groups, (aggregator,), unfilled),
        call_ensures(GroupsAggregator::keys_of_filled_groups, (aggregator,), filled),
    ensures
        are_keys_of(
            unfilled@,
            aggregator.groups@,
            |group: GroupView| group.hits.len() < aggregator.max_group_size,
        ),
        are_keys_of(
            filled@,
            aggregator.groups@,
            |group: GroupView| group.hits.len() >= aggregator.max_group_size,
        ),
        unfilled@.len() + filled@.len() == aggregator.groups@.dom().len(),
{
    let size = aggregator.max_group_size as nat;
    let few = crate::aggregator::key_values(aggregator.groups@, size, false);
    let many = crate::aggregator::key_values(aggregator.groups@, size, true);
    crate::assoc::law_listing(seq_view(unfilled@), few);
    crate::assoc::law_listing(seq_view(filled@), many);
    crate::grouping_laws::law_filled_or_unfilled(aggregator@);
    assert(many.dom().union(few.dom()) == aggregator.groups@.dom());
    vstd::set_lib::lemma_set_disjoint_lens(many.dom(), few.dom());
    assert(many.dom() + few.dom() =~= aggregator.groups@.dom());
    lemma_keys_of(
        unfilled@,
        aggregator.groups@,
        size,
        false,
        |group: GroupView| group.hits.len() < aggregator.max_group_size,
    );
    lemma_keys_of(
        filled@,
        aggregator.groups@,
        size,
        true,
        |group: GroupView| group.hits.len() >= aggregator.max_group_size,
    );
}

/// The ids are those of the points that some group holds, each once.
pub proof fn law_ids_of_groups(aggregator: &GroupsAggregator, ids: Vec<ExtendedPointId>)
    requires
        call_ensures(GroupsAggregator::ids, (aggregator,), ids),
    ensures
        forall|i: int, j: int|
            0 <= i < j < ids@.len() ==> #[trigger] ids@[i] != #[trigger] ids@[j],
        forall|id: ExtendedPointId| #[trigger]
            ids@.contains(id) <==> exists|k: GroupKeyView| #[trigger]
                aggregator.groups@.contains_key(k) && aggregator.groups@[k].hits.contains_key(id),
{
}

/// Whether `points` are the points of all groups, each once for each group that
/// holds it, and with all its parts.
pub open spec fn are_points_of(
    points: Seq<ScoredPoint>,
    groups: Map<GroupKeyView, GroupView>,
) -> bool {
    exists|at: Seq<(GroupKeyView, ExtendedPointId)>|
        #[trigger] at.no_duplicates() && at.len() == points.len() && (forall|
            k: GroupKeyView,
            id: ExtendedPointId,
        |
            #[trigger] at.contains((k, id)) <==> groups.contains_key(k)
                && groups[k].hits.contains_key(id)) && forall|j: int|
            0 <= j < at.len() ==> (#[trigger] points[j])@ == groups[at[j].0].hits[at[j].1]
}

/// The points of all groups are given as the groups hold them, with all their
/// parts, each once for each group that holds it.
pub proof fn law_flatten_gives_all_points(aggregator: &GroupsAggregator, points: Vec<ScoredPoint>)
    requires
        call_ensures(GroupsAggregator::flatten, (aggregator,), points),
    ensures
        are_points_of(points@, aggregator.groups@),
{
    let groups = aggregator.groups@;
    let all = all_hits(groups);
    let at = choose|at: Seq<(GroupKeyView, ExtendedPointId)>|
        lists_values_of(seq_view(points@), all, at);
    assert(points@.len() == seq_view(points@).len());
    assert forall|k: GroupKeyView, id: ExtendedPointId| #[trigger]
        at.contains((k, id)) <==> groups.contains_key(k) && groups[k].hits.contains_key(id) by {
        assert(at.to_set().contains((k, id)) <==> all.dom().contains((k, id)));
    }
    assert forall|j: int| 0 <= j < at.len() implies (#[trigger] points@[j])@
        == groups[at[j].0].hits[at[j].1] by {
        assert(seq_view(points@)[j] == points@[j]@);
        assert(at.contains(at[j]));
        assert(at.to_set().contains(at[j]));
    }
    assert(at.no_duplicates());
}

/// Whether two points have the same parts.
pub open spec fn same_parts(a: ScoredPoint, b: ScoredPoint) -> bool {
    &&& a.id == b.id
    &&& a.version == b.version
    &&& a.score_bits == b.score_bits
    &&& a.payload is Some == b.payload is Some
    &&& a.payload is Some ==> a.payload->Some_0@ == b.payload->Some_0@
    &&& a.vector is Some == b.vector is Some
    &&& a.vector is Some ==> a.vector->Some_0@ == b.vector->Some_0@
    &&& a.shard_key is Some == b.shard_key is Some
    &&& a.shard_key is Some ==> a.shard_key->Some_0@ == b.shard_key->Some_0@
    &&& a.order_value == b.order_value
}

/// A point that was offered to a group with room for it, and without a point
/// with its id, is among the points of all groups, with all its parts.
pub proof fn law_added_point_is_given(
    aggregator: &mut GroupsAggregator,
    point: &ScoredPoint,
    values: &Vec<Value>,
    key: GroupKeyView,
    points: Vec<ScoredPoint>,
)
    requires
        call_ensures(GroupsAggregator::add_point_with_values, (aggregator, point, values), ()),
        call_ensures(GroupsAggregator::flatten, (&*final(aggregator),), points),
        values@.len() > 0,
        is_key(values@[0]@, key),
        old(aggregator).max_group_size > 0,
        ({
            let groups = old(aggregator).groups@;
            let k = key.canonical();
            &&& groups.contains_key(k) ==> groups[k].hits.len() != old(aggregator).max_group_size
                && !groups[k].hits.contains_key(point.id)
            &&& !groups.contains_key(k) ==> groups.len() < old(aggregator).max_groups
        }),
    ensures
        exists|j: int| 0 <= j < points@.len() && same_parts(#[trigger] points@[j], *point),
{
    law_point_is_offered_by_its_first_value(aggregator, point, values, key);
    law_flatten_gives_all_points(final(aggregator), points);
    let groups = final(aggregator).groups@;
    let k = key.canonical();
    assert(groups.contains_key(k));
    law_contents_of_point(*point);
    assert(groups[k].hits.contains_key(point.id));
    assert(groups[k].hits[point.id] == point@);
    let at = choose|at: Seq<(GroupKeyView, ExtendedPointId)>|
        #[trigger] at.no_duplicates() && at.len() == points@.len() && (forall|
            k: GroupKeyView,
            id: ExtendedPointId,
        |
            #[trigger] at.contains((k, id)) <==> groups.contains_key(k)
                && groups[k].hits.contains_key(id)) && forall|j: int|
            0 <= j < at.len() ==> (#[trigger] points@[j])@ == groups[at[j].0].hits[at[j].1];
    assert(at.contains((k, point.id)));
    let j = choose|j: int| 0 <= j < at.len() && at[j] == (k, point.id);
    law_contents_of_point(points@[j]);
    assert(points@[j]@ == point@);
    assert(same_parts(points@[j], *point));
}

/// Hydration keeps all groups, their keys and the ids of their points. In every
/// group each point becomes the last of the given points that has its id, with
/// all its parts; a point whose id none has stays as it is. The limits and the
/// key of the aggregator stay.
pub proof fn law_hydrate_replaces_points(
    aggregator: &mut GroupsAggregator,
    points: &[ScoredPoint],
    k: GroupKeyView,
    id: ExtendedPointId,
)
    requires
        call_ensures(GroupsAggregator::hydrate_from, (aggregator, points), ()),
    ensures
        final(aggregator).wf(),
        final(aggregator).max_groups == old(aggregator).max_groups,
        final(aggregator).max_group_size == old(aggregator).max_group_size,
        final(aggregator).grouped_by@ == old(aggregator).grouped_by@,
        final(aggregator).groups@.contains_key(k) == old(aggregator).groups@.contains_key(k),
        old(aggregator).groups@.contains_key(k) ==> {
            let before = old(aggregator).groups@[k];
            let after = final(aggregator).groups@[k];
            &&& after.key == before.key
            &&& after.hits.contains_key(id) == before.hits.contains_key(id)
            &&& before.hits.contains_key(id) ==> {
                &&& forall|i: int|
                    0 <= i < points@.len() && (#[trigger] points@[i]).id == id && (forall|j: int|
                        i < j < points@.len() ==> (#[trigger] points@[j]).id != id)
                        ==> after.hits[id] == points@[i]@
                &&& (forall|i: int| 0 <= i < points@.len() ==> (#[trigger] points@[i]).id != id)
                    ==> after.hits[id] == before.hits[id]
            }
        },
{
    let views = seq_view(points@);
    lemma_latest(views, id);
    assert(final(aggregator)@.groups == final(aggregator).groups@);
    assert(old(aggregator)@.groups == old(aggregator).groups@);
    assert forall|i: int| 0 <= i < points@.len() implies views[i].id == (
    #[trigger] points@[i]).id && views[i] == points@[i]@ by {}
    if old(aggregator).groups@.contains_key(k) && old(aggregator).groups@[k].hits.contains_key(
        id,
    ) {
        let after = final(aggregator).groups@[k];
        assert forall|i: int|
            0 <= i < points@.len() && (#[trigger] points@[i]).id == id && (forall|j: int|
                i < j < points@.len() ==> (#[trigger] points@[j]).id != id) implies after.hits[id]
            == points@[i]@ by {
            assert(views[i].id == id);
            let last = crate::aggregator::latest(views, id);
            assert(last is Some);
            let m = choose|m: int|
                0 <= m < views.len() && #[trigger] views[m] == last->Some_0 && last->Some_0.id == id
                    && (forall|j: int| m < j < views.len() ==> (#[trigger] views[j]).id != id);
            assert(points@[m].id == id);
            if m < i {
                assert(views[i].id != id);
            }
        }
        if forall|i: int| 0 <= i < points@.len() ==> (#[trigger] points@[i]).id != id {
            assert forall|i: int| 0 <= i < views.len() implies (#[trigger] views[i]).id != id by {
                assert(points@[i].id != id);
            }
        }
    }
}

/// Sound aggregators take any points and any values, and can be asked for
/// anything.
pub proof fn law_aggregator_takes_any_points(
    aggregator: &mut GroupsAggregator,
    point: &ScoredPoint,
    point_values: &Vec<Value>,
    points: &[ScoredPoint],
    values: &Vec<Vec<Value>>,
)
    requires
        old(aggregator).wf(),
    ensures
        call_requires(GroupsAggregator::add_point, (aggregator, point)),
        call_requires(
            GroupsAggregator::add_point_with_values,
            (aggregator, point, point_values),
        ),
        call_requires(GroupsAggregator::add_points, (aggregator, points)),
        points@.len() == values@.len() ==> call_requires(
            GroupsAggregator::add_points_with_values,
            (aggregator, points, values),
        ),
        call_requires(GroupsAggregator::hydrate_from, (aggregator, points)),
        call_requires(GroupsAggregator::len, (&*old(aggregator),)),
        call_requires(GroupsAggregator::keys_of_unfilled_groups, (&*old(aggregator),)),
        call_requires(GroupsAggregator::keys_of_filled_groups, (&*old(aggregator),)),
        call_requires(GroupsAggregator::ids, (&*old(aggregator),)),
        call_requires(GroupsAggregator::flatten, (&*old(aggregator),)),
{
}

} // verus!
