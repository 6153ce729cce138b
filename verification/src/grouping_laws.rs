//! What holds of the groups of an aggregator, whatever points it is given.
use crate::aggregator::{all_hits, group_key, has_id, key_values, latest, values_of, AggregatorView};
use crate::arrange::first;
use crate::groups::{GroupKeyView, GroupView};
use crate::json::ValueView;
use crate::point::{ExtendedPointId, ScoredPointView};
use vstd::prelude::*;

verus! {

impl AggregatorView {
    /// There are at most `max_groups` groups, of at most `max_group_size`
    /// points each.
    pub open spec fn within_limits(self) -> bool {
        &&& self.groups.dom().finite()
        &&& self.groups.len() <= self.max_groups
        &&& forall|k: GroupKeyView| #[trigger]
            self.groups.contains_key(k) ==> self.groups[k].hits.dom().finite()
                && self.groups[k].hits.len() <= self.max_group_size
    }

    /// Every group is filed under its key, every point in a group under its id,
    /// and the key `grouped_by` of each point names the group.
    pub open spec fn filed_by_key(self) -> bool {
        &&& forall|k: GroupKeyView| #[trigger]
            self.groups.contains_key(k) ==> self.groups[k].key.canonical() == k
        &&& forall|k: GroupKeyView, id: ExtendedPointId|
            self.groups.contains_key(k) && #[trigger] self.groups[k].hits.contains_key(id) ==> {
                let hit = self.groups[k].hits[id];
                &&& hit.id == id
                &&& group_key(values_of(hit, self.grouped_by)) matches Some(key)
                &&& key.canonical() == k
            }
    }
}

/// An aggregator without groups is within its limits, and has no point in a
/// wrong group.
pub proof fn law_new_is_within_limits(view: AggregatorView)
    requires
        view.groups == Map::<GroupKeyView, GroupView>::empty(),
    ensures
        view.within_limits(),
        view.filed_by_key(),
{
}

/// Offering a point never brings an aggregator over its limits.
pub proof fn law_add_point_keeps_limits(
    view: AggregatorView,
    point: ScoredPointView,
    values: Seq<ValueView>,
)
    requires
        view.within_limits(),
    ensures
        view.with_point(point, values).within_limits(),
{
}

/// Offering any number of points never brings an aggregator over its limits.
pub proof fn law_add_points_keeps_limits(view: AggregatorView, points: Seq<ScoredPointView>)
    requires
        view.within_limits(),
    ensures
        view.with_points(points).within_limits(),
        view.with_points(points).grouped_by == view.grouped_by,
        view.with_points(points).max_groups == view.max_groups,
        view.with_points(points).max_group_size == view.max_group_size,
    decreases points.len(),
{
    if points.len() > 0 {
        law_add_points_keeps_limits(view, points.drop_last());
        law_add_point_keeps_limits(
            view.with_points(points.drop_last()),
            points.last(),
            values_of(points.last(), view.grouped_by),
        );
    }
}

/// Offering any number of points, whatever their values, never brings an
/// aggregator over its limits.
pub proof fn law_add_valued_points_keeps_limits(
    view: AggregatorView,
    points: Seq<ScoredPointView>,
    values: Seq<Seq<ValueView>>,
)
    requires
        view.within_limits(),
        points.len() == values.len(),
    ensures
        view.with_valued_points(points, values).within_limits(),
        view.with_valued_points(points, values).grouped_by == view.grouped_by,
        view.with_valued_points(points, values).max_groups == view.max_groups,
        view.with_valued_points(points, values).max_group_size == view.max_group_size,
    decreases points.len(),
{
    if points.len() > 0 {
        law_add_valued_points_keeps_limits(view, points.drop_last(), values.drop_last());
        law_add_point_keeps_limits(
            view.with_valued_points(points.drop_last(), values.drop_last()),
            points.last(),
            values.last(),
        );
    }
}

/// Offering points is offering them with the values of the key that they are
/// grouped by.
pub proof fn law_add_points_looks_values_up(
    view: AggregatorView,
    points: Seq<ScoredPointView>,
    values: Seq<Seq<ValueView>>,
)
    requires
        points.len() == values.len(),
        forall|i: int|
            0 <= i < points.len() ==> #[trigger] values[i] == values_of(points[i], view.grouped_by),
    ensures
        view.with_points(points) == view.with_valued_points(points, values),
    decreases points.len(),
{
    if points.len() > 0 {
        law_add_points_looks_values_up(view, points.drop_last(), values.drop_last());
        assert(values[points.len() - 1] == values_of(points.last(), view.grouped_by));
    }
}

/// Offering points in two calls is offering them in one.
pub proof fn law_add_points_in_two_calls(
    view: AggregatorView,
    points: Seq<ScoredPointView>,
    values: Seq<Seq<ValueView>>,
    more: Seq<ScoredPointView>,
    more_values: Seq<Seq<ValueView>>,
)
    requires
        points.len() == values.len(),
        more.len() == more_values.len(),
    ensures
        view.with_valued_points(points, values).with_valued_points(more, more_values)
            == view.with_valued_points(points + more, values + more_values),
    decreases more.len(),
{
    if more.len() == 0 {
        assert(points + more =~= points);
        assert(values + more_values =~= values);
    } else {
        law_add_points_in_two_calls(
            view,
            points,
            values,
            more.drop_last(),
            more_values.drop_last(),
        );
        assert((points + more).drop_last() =~= points + more.drop_last());
        assert((values + more_values).drop_last() =~= values + more_values.drop_last());
    }
}

/// Whatever points are offered, each gets into the group that its key
/// `grouped_by` names or into none.
pub proof fn law_points_are_filed_by_key(view: AggregatorView, points: Seq<ScoredPointView>)
    requires
        view.filed_by_key(),
    ensures
        view.with_points(points).filed_by_key(),
        view.with_points(points).grouped_by == view.grouped_by,
    decreases points.len(),
{
    if points.len() > 0 {
        law_points_are_filed_by_key(view, points.drop_last());
        let before = view.with_points(points.drop_last());
        let after = view.with_points(points);
        let point = points.last();
        assert forall|k: GroupKeyView, id: ExtendedPointId|
            after.groups.contains_key(k) && #[trigger] after.groups[k].hits.contains_key(id) implies {
            let hit = after.groups[k].hits[id];
            &&& hit.id == id
            &&& group_key(values_of(hit, view.grouped_by)) matches Some(key)
            &&& key.canonical() == k
        } by {
            if before.groups.contains_key(k) && before.groups[k].hits.contains_key(id) {
                law_add_point_keeps_hits(before, point, values_of(point, view.grouped_by), k);
            } else {
                assert(after.groups[k].hits[id] == point);
            }
        }
    }
}

/// A point that is offered a second time changes nothing.
pub proof fn law_add_point_twice_is_once(
    view: AggregatorView,
    point: ScoredPointView,
    values: Seq<ValueView>,
)
    requires
        view.groups.dom().finite(),
    ensures
        view.with_point(point, values).with_point(point, values) == view.with_point(point, values),
{
    let once = view.with_point(point, values);
    if let Some(key) = group_key(values) {
        if once.groups.contains_key(key.canonical()) {
            assert(once.with_point(point, values).groups =~= once.groups);
        }
    }
}

/// A point that changes nothing changes nothing after another was offered.
proof fn lemma_settled(
    view: AggregatorView,
    point: ScoredPointView,
    values: Seq<ValueView>,
    other: ScoredPointView,
    other_values: Seq<ValueView>,
)
    requires
        view.groups.dom().finite(),
        view.with_point(point, values) == view,
    ensures
        view.with_point(other, other_values).with_point(point, values) == view.with_point(
            other,
            other_values,
        ),
{
    let after = view.with_point(other, other_values);
    if let Some(key) = group_key(values) {
        let k = key.canonical();
        assert(view.groups.contains_key(k) || view.groups.len() >= view.max_groups) by {
            assert(view.with_point(point, values).groups.contains_key(k) || view.groups.len()
                >= view.max_groups);
        }
        if view.groups.contains_key(k) {
            let group = view.groups[k];
            assert(view.with_point(point, values).groups[k] == group.with_point(
                point,
                view.max_group_size,
            ));
            assert(group.hits.len() == view.max_group_size || group.hits.contains_key(point.id)) by {
                assert(group.with_point(point, view.max_group_size).hits == group.hits);
                assert(group.hits.insert(point.id, point).contains_key(point.id));
            }
            law_add_point_keeps_hits(view, other, other_values, k);
            if group.hits.len() == view.max_group_size {
                law_full_group_is_closed(view, other, other_values, k);
            }
            assert(after.groups[k].with_point(point, view.max_group_size) == after.groups[k]);
            assert(after.groups.insert(k, after.groups[k]) =~= after.groups);
        } else {
            law_enough_groups(view, other, other_values);
        }
    }
}

/// Points that were offered change nothing any more.
proof fn lemma_offered(
    view: AggregatorView,
    points: Seq<ScoredPointView>,
    values: Seq<Seq<ValueView>>,
    i: int,
)
    requires
        view.groups.dom().finite(),
        points.len() == values.len(),
        0 <= i < points.len(),
    ensures
        view.with_valued_points(points, values).groups.dom().finite(),
        view.with_valued_points(points, values).with_point(points[i], values[i])
            == view.with_valued_points(points, values),
    decreases points.len(),
{
    let before = view.with_valued_points(points.drop_last(), values.drop_last());
    if points.len() == 1 {
        assert(before == view);
    } else {
        lemma_offered(view, points.drop_last(), values.drop_last(), 0);
    }
    if i == points.len() - 1 {
        law_add_point_twice_is_once(before, points.last(), values.last());
    } else {
        lemma_offered(view, points.drop_last(), values.drop_last(), i);
        lemma_settled(before, points[i], values[i], points.last(), values.last());
    }
}

/// Points that change nothing one by one change nothing together.
proof fn lemma_all_settled(
    view: AggregatorView,
    points: Seq<ScoredPointView>,
    values: Seq<Seq<ValueView>>,
)
    requires
        points.len() == values.len(),
        forall|i: int|
            0 <= i < points.len() ==> view.with_point(#[trigger] points[i], values[i]) == view,
    ensures
        view.with_valued_points(points, values) == view,
    decreases points.len(),
{
    if points.len() > 0 {
        let n = points.len() - 1;
        assert forall|i: int| 0 <= i < n implies view.with_point(
            #[trigger] points.drop_last()[i],
            values.drop_last()[i],
        ) == view by {
            assert(points.drop_last()[i] == points[i]);
        }
        lemma_all_settled(view, points.drop_last(), values.drop_last());
        assert(view.with_point(points[n], values[n]) == view);
    }
}

/// Points that are offered a second time, after all of them, change nothing.
pub proof fn law_add_points_twice_is_once(
    view: AggregatorView,
    points: Seq<ScoredPointView>,
    values: Seq<Seq<ValueView>>,
)
    requires
        view.groups.dom().finite(),
        points.len() == values.len(),
    ensures
        view.with_valued_points(points, values).with_valued_points(points, values)
            == view.with_valued_points(points, values),
{
    let once = view.with_valued_points(points, values);
    assert forall|i: int| 0 <= i < points.len() implies once.with_point(
        #[trigger] points[i],
        values[i],
    ) == once by {
        lemma_offered(view, points, values, i);
    }
    lemma_all_settled(once, points, values);
}

/// The group keys that the values give, in the order in which they first come;
/// of equal keys the first.
pub open spec fn keys_in_turn(values: Seq<Seq<ValueView>>) -> Seq<GroupKeyView>
    decreases values.len(),
{
    if values.len() == 0 {
        Seq::empty()
    } else {
        let before = keys_in_turn(values.drop_last());
        match group_key(values.last()) {
            Some(key) if !lists_key(before, key.canonical()) => before.push(key),
            _ => before,
        }
    }
}

/// Whether a key equal to `k` is listed.
pub open spec fn lists_key(keys: Seq<GroupKeyView>, k: GroupKeyView) -> bool {
    exists|i: int| 0 <= i < keys.len() && (#[trigger] keys[i]).canonical() == k
}

/// The points whose values give a key equal to `k`, in the order in which they
/// come; of those with the same id the first.
pub open spec fn points_in_turn(
    points: Seq<ScoredPointView>,
    values: Seq<Seq<ValueView>>,
    k: GroupKeyView,
) -> Seq<ScoredPointView>
    decreases points.len(),
{
    if points.len() == 0 {
        Seq::empty()
    } else {
        let before = points_in_turn(points.drop_last(), values.drop_last(), k);
        match group_key(values.last()) {
            Some(key) if key.canonical() == k && !lists_id(before, points.last().id) => before.push(
                points.last(),
            ),
            _ => before,
        }
    }
}

/// Whether a point with the id `id` is listed.
pub open spec fn lists_id(points: Seq<ScoredPointView>, id: ExtendedPointId) -> bool {
    exists|i: int| 0 <= i < points.len() && (#[trigger] points[i]).id == id
}

impl GroupView {
    /// Whether a group holds these points and no others.
    pub open spec fn holds(self, points: Seq<ScoredPointView>) -> bool {
        &&& self.hits.dom().finite()
        &&& self.hits.len() == points.len()
        &&& forall|i: int|
            0 <= i < points.len() ==> self.hits.contains_key((#[trigger] points[i]).id)
                && self.hits[points[i].id] == points[i]
        &&& forall|id: ExtendedPointId| #[trigger]
            self.hits.contains_key(id) ==> lists_id(points, id)
    }
}

/// No point came for a key that did not come.
proof fn lemma_no_points_without_key(
    points: Seq<ScoredPointView>,
    values: Seq<Seq<ValueView>>,
    k: GroupKeyView,
)
    requires
        points.len() == values.len(),
        !lists_key(keys_in_turn(values), k),
    ensures
        points_in_turn(points, values, k) == Seq::<ScoredPointView>::empty(),
    decreases points.len(),
{
    if points.len() > 0 {
        let before = keys_in_turn(values.drop_last());
        let now = keys_in_turn(values);
        if lists_key(before, k) {
            let i = choose|i: int| 0 <= i < before.len() && (#[trigger] before[i]).canonical() == k;
            assert(now[i] == before[i]);
        }
        if let Some(key) = group_key(values.last()) {
            if key.canonical() == k {
                assert(now == before.push(key));
                assert(now[before.len() as int].canonical() == k);
            }
        }
        lemma_no_points_without_key(points.drop_last(), values.drop_last(), k);
    }
}

/// A group that holds the first `size` of the points that came for it does so
/// after another came.
proof fn lemma_group_in_turn(
    group: GroupView,
    came: Seq<ScoredPointView>,
    point: ScoredPointView,
    size: nat,
)
    requires
        group.holds(first(came, size)),
    ensures
        group.with_point(point, size).holds(
            first(
                if lists_id(came, point.id) {
                    came
                } else {
                    came.push(point)
                },
                size,
            ),
        ),
{
    let held = first(came, size);
    if lists_id(held, point.id) {
        let i = choose|i: int| 0 <= i < held.len() && (#[trigger] held[i]).id == point.id;
        assert(came[i].id == point.id);
        assert(group.hits.contains_key(held[i].id));
    } else if came.len() >= size {
        assert(held.len() == size);
        assert(first(came.push(point), size) =~= held);
    } else {
        let all = came.push(point);
        let after = group.with_point(point, size);
        assert(held == came);
        assert(!group.hits.contains_key(point.id));
        assert(after.hits == group.hits.insert(point.id, point));
        assert(first(all, size) == all);
        assert forall|i: int| 0 <= i < all.len() implies after.hits.contains_key(
            (#[trigger] all[i]).id,
        ) && after.hits[all[i].id] == all[i] by {
            if i < came.len() {
                assert(all[i] == came[i]);
                assert(group.hits.contains_key(came[i].id));
            }
        }
        assert forall|id: ExtendedPointId| #[trigger]
            after.hits.contains_key(id) implies lists_id(all, id) by {
            if id == point.id {
                assert(all[came.len() as int].id == id);
            } else {
                assert(group.hits.contains_key(id));
                let i = choose|i: int| 0 <= i < came.len() && (#[trigger] came[i]).id == id;
                assert(all[i].id == id);
            }
        }
    }
}

impl AggregatorView {
    /// Whether there is a group for each of the first `max_groups` keys that
    /// came, and in it the first `max_group_size` points that came for it.
    pub open spec fn holds_what_came_first(
        self,
        points: Seq<ScoredPointView>,
        values: Seq<Seq<ValueView>>,
    ) -> bool {
        let keys = first(keys_in_turn(values), self.max_groups);
        &&& self.groups.dom().finite()
        &&& self.groups.len() == keys.len()
        &&& forall|i: int|
            0 <= i < keys.len() ==> self.groups.contains_key((#[trigger] keys[i]).canonical())
                && self.groups[keys[i].canonical()].key == keys[i]
        &&& forall|k: GroupKeyView| #[trigger]
            self.groups.contains_key(k) ==> lists_key(keys, k) && self.groups[k].holds(
                first(points_in_turn(points, values, k), self.max_group_size),
            )
    }
}

/// An aggregator that had no groups has a group for each of the first
/// `max_groups` keys that came, and in it the first `max_group_size` points
/// that came for it.
pub proof fn law_groups_hold_what_came_first(
    view: AggregatorView,
    points: Seq<ScoredPointView>,
    values: Seq<Seq<ValueView>>,
)
    requires
        view.groups == Map::<GroupKeyView, GroupView>::empty(),
        points.len() == values.len(),
    ensures
        view.with_valued_points(points, values).holds_what_came_first(points, values),
        view.with_valued_points(points, values).max_groups == view.max_groups,
        view.with_valued_points(points, values).max_group_size == view.max_group_size,
    decreases points.len(),
{
    if points.len() > 0 {
        let some = points.drop_last();
        let some_values = values.drop_last();
        law_groups_hold_what_came_first(view, some, some_values);
        lemma_one_more_came(view.with_valued_points(some, some_values), points, values);
    }
}

/// What [`AggregatorView::holds_what_came_first`] says is kept when another
/// point comes.
proof fn lemma_one_more_came(
    before: AggregatorView,
    points: Seq<ScoredPointView>,
    values: Seq<Seq<ValueView>>,
)
    requires
        points.len() == values.len(),
        points.len() > 0,
        before.holds_what_came_first(points.drop_last(), values.drop_last()),
    ensures
        before.with_point(points.last(), values.last()).holds_what_came_first(points, values),
{
    let some = points.drop_last();
    let some_values = values.drop_last();
    let point = points.last();
    let after = before.with_point(point, values.last());
    let n = before.max_groups;
    let size = before.max_group_size;
    let listed = keys_in_turn(some_values);
    let keys = first(listed, n);
    let new_keys = first(keys_in_turn(values), n);
    match group_key(values.last()) {
        None => {
            assert forall|k: GroupKeyView| #[trigger]
                after.groups.contains_key(k) implies after.groups[k].holds(
                first(points_in_turn(points, values, k), size),
            ) by {
                assert(points_in_turn(points, values, k) == points_in_turn(some, some_values, k));
            }
        },
        Some(key) => {
            let own = key.canonical();
            let came = points_in_turn(some, some_values, own);
            if lists_key(keys, own) {
                let i = choose|i: int| 0 <= i < keys.len() && (#[trigger] keys[i]).canonical()
                    == own;
                assert(listed[i].canonical() == own);
                assert(before.groups.contains_key(keys[i].canonical()));
                assert(new_keys == keys);
                lemma_group_in_turn(before.groups[own], came, point, size);
                assert(after.groups.dom() =~= before.groups.dom());
            } else {
                assert(!before.groups.contains_key(own));
                if lists_key(listed, own) {
                    let i = choose|i: int| 0 <= i < listed.len() && (
                    #[trigger] listed[i]).canonical() == own;
                    if i < keys.len() {
                        assert(keys[i] == listed[i]);
                    }
                    assert(keys.len() == n);
                    assert(new_keys == keys);
                } else if keys.len() < n {
                    assert(new_keys == keys.push(key));
                    lemma_no_points_without_key(some, some_values, own);
                    let fresh = GroupView { key, hits: Map::empty() };
                    lemma_group_in_turn(fresh, came, point, size);
                    assert(after.groups == before.groups.insert(
                        own,
                        fresh.with_point(point, size),
                    ));
                    assert forall|i: int| 0 <= i < new_keys.len() implies after.groups.contains_key(
                        (#[trigger] new_keys[i]).canonical(),
                    ) && after.groups[new_keys[i].canonical()].key == new_keys[i] by {
                        if i < keys.len() {
                            assert(new_keys[i] == keys[i]);
                            assert(keys[i].canonical() != own);
                        }
                    }
                } else {
                    assert(new_keys =~= keys);
                }
            }
            assert forall|k: GroupKeyView| #[trigger] after.groups.contains_key(k) implies lists_key(
                new_keys,
                k,
            ) && after.groups[k].holds(first(points_in_turn(points, values, k), size)) by {
                if k == own {
                    if !lists_key(keys, own) {
                        assert(new_keys[keys.len() as int].canonical() == own);
                    }
                } else {
                    assert(before.groups.contains_key(k));
                    let i = choose|i: int| 0 <= i < keys.len() && (#[trigger] keys[i]).canonical()
                        == k;
                    assert(new_keys[i].canonical() == k);
                    assert(points_in_turn(points, values, k) == points_in_turn(
                        some,
                        some_values,
                        k,
                    ));
                }
            }
        },
    }
}

/// What a group holds stays in it when a point is offered: no group goes away
/// or changes its key, and no point goes away or changes.
pub proof fn law_add_point_keeps_hits(
    view: AggregatorView,
    point: ScoredPointView,
    values: Seq<ValueView>,
    k: GroupKeyView,
)
    requires
        view.groups.contains_key(k),
    ensures
        view.with_point(point, values).groups.contains_key(k),
        view.with_point(point, values).groups[k].key == view.groups[k].key,
        forall|id: ExtendedPointId| #[trigger]
            view.groups[k].hits.contains_key(id) ==> view.with_point(
                point,
                values,
            ).groups[k].hits.contains_key(id) && view.with_point(point, values).groups[k].hits[id]
                == view.groups[k].hits[id],
{
}

/// Only the group that the point belongs to can change.
pub proof fn law_add_point_touches_one_group(
    view: AggregatorView,
    point: ScoredPointView,
    values: Seq<ValueView>,
    k: GroupKeyView,
)
    requires
        group_key(values) matches Some(key) ==> key.canonical() != k,
    ensures
        view.with_point(point, values).groups.contains_key(k) == view.groups.contains_key(k),
        view.groups.contains_key(k) ==> view.with_point(point, values).groups[k]
            == view.groups[k],
{
}

/// A full group does not change when a point is offered.
pub proof fn law_full_group_is_closed(
    view: AggregatorView,
    point: ScoredPointView,
    values: Seq<ValueView>,
    k: GroupKeyView,
)
    requires
        view.groups.contains_key(k),
        view.groups[k].hits.len() == view.max_group_size,
    ensures
        view.with_point(point, values).groups[k] == view.groups[k],
{
}

/// When there are enough groups, no point opens another one.
pub proof fn law_enough_groups(
    view: AggregatorView,
    point: ScoredPointView,
    values: Seq<ValueView>,
)
    requires
        view.groups.len() >= view.max_groups,
    ensures
        view.with_point(point, values).groups.dom() == view.groups.dom(),
{
    assert(view.with_point(point, values).groups.dom() =~= view.groups.dom());
}

/// A point that has a group key gets into its group when the group exists or
/// may be opened, is not full, and holds no point with the same id.
pub proof fn law_add_point_stores(
    view: AggregatorView,
    point: ScoredPointView,
    values: Seq<ValueView>,
    key: GroupKeyView,
)
    requires
        group_key(values) == Some(key),
        view.groups.contains_key(key.canonical()) || view.groups.len() < view.max_groups,
        view.groups.contains_key(key.canonical()) ==> {
            &&& view.groups[key.canonical()].hits.len() != view.max_group_size
            &&& !view.groups[key.canonical()].hits.contains_key(point.id)
        },
        !view.groups.contains_key(key.canonical()) ==> view.max_group_size > 0,
    ensures
        view.with_point(point, values).groups.contains_key(key.canonical()),
        view.with_point(point, values).groups[key.canonical()].hits.contains_key(point.id),
        view.with_point(point, values).groups[key.canonical()].hits[point.id] == point,
{
}

/// Every group is either filled or unfilled.
pub proof fn law_filled_or_unfilled(view: AggregatorView)
    ensures
        key_values(view.groups, view.max_group_size, true).dom().disjoint(
            key_values(view.groups, view.max_group_size, false).dom(),
        ),
        key_values(view.groups, view.max_group_size, true).dom().union(
            key_values(view.groups, view.max_group_size, false).dom(),
        ) == view.groups.dom(),
{
    assert(key_values(view.groups, view.max_group_size, true).dom().union(
        key_values(view.groups, view.max_group_size, false).dom(),
    ) =~= view.groups.dom());
}

/// The ids of the groups are the ids under which the points of all groups are
/// found.
pub proof fn law_ids_are_those_of_all_hits(view: AggregatorView, id: ExtendedPointId)
    ensures
        has_id(view.groups, id) <==> exists|k: GroupKeyView| #[trigger]
            all_hits(view.groups).contains_key((k, id)),
{
    if has_id(view.groups, id) {
        let k = choose|k: GroupKeyView| #[trigger]
            view.groups.contains_key(k) && view.groups[k].hits.contains_key(id);
        assert(all_hits(view.groups).contains_key((k, id)));
    }
    if exists|k: GroupKeyView| #[trigger] all_hits(view.groups).contains_key((k, id)) {
        let k = choose|k: GroupKeyView| #[trigger] all_hits(view.groups).contains_key((k, id));
        assert(view.groups.contains_key(k));
    }
}

/// Hydration keeps the groups, their keys and the ids of their points, and so
/// their sizes.
pub proof fn law_hydrate_keeps_groups(
    view: AggregatorView,
    points: Seq<ScoredPointView>,
    k: GroupKeyView,
)
    ensures
        view.hydrated(points).groups.dom() == view.groups.dom(),
        view.groups.contains_key(k) ==> {
            &&& view.hydrated(points).groups[k].key == view.groups[k].key
            &&& view.hydrated(points).groups[k].hits.dom() == view.groups[k].hits.dom()
            &&& view.hydrated(points).groups[k].hits.len() == view.groups[k].hits.len()
        },
{
    assert(view.hydrated(points).groups.dom() =~= view.groups.dom());
    if view.groups.contains_key(k) {
        assert(view.hydrated(points).groups[k].hits.dom() =~= view.groups[k].hits.dom());
    }
}

/// Hydration keeps an aggregator within its limits.
pub proof fn law_hydrate_keeps_limits(view: AggregatorView, points: Seq<ScoredPointView>)
    requires
        view.within_limits(),
    ensures
        view.hydrated(points).within_limits(),
{
    assert forall|k: GroupKeyView| #[trigger]
        view.hydrated(points).groups.contains_key(k) implies view.hydrated(
        points,
    ).groups[k].hits.dom().finite() && view.hydrated(points).groups[k].hits.len()
        <= view.max_group_size by {
        law_hydrate_keeps_groups(view, points, k);
    }
    assert(view.hydrated(points).groups.dom() =~= view.groups.dom());
}

/// A point in a group gets the payload and the vector of the last of the given
/// points that has its id; it stays as it is when none has.
pub proof fn law_hydrate_copies_payload_and_vector(
    view: AggregatorView,
    points: Seq<ScoredPointView>,
    k: GroupKeyView,
    id: ExtendedPointId,
)
    requires
        view.groups.contains_key(k),
        view.groups[k].hits.contains_key(id),
    ensures
        forall|i: int|
            0 <= i < points.len() && points[i].id == id && (forall|j: int|
                i < j < points.len() ==> (#[trigger] points[j]).id != id) ==> {
                &&& view.hydrated(points).groups[k].hits[id].payload == (
                #[trigger] points[i]).payload
                &&& view.hydrated(points).groups[k].hits[id].vector == points[i].vector
            },
        (forall|i: int| 0 <= i < points.len() ==> (#[trigger] points[i]).id != id)
            ==> view.hydrated(points).groups[k].hits[id] == view.groups[k].hits[id],
{
    lemma_latest(points, id);
}

/// The last point with an id is at some index, after which none has it.
pub proof fn lemma_latest(points: Seq<ScoredPointView>, id: ExtendedPointId)
    ensures
        match latest(points, id) {
            Some(point) => exists|i: int|
                0 <= i < points.len() && #[trigger] points[i] == point && point.id == id && (forall|
                    j: int,
                | i < j < points.len() ==> (#[trigger] points[j]).id != id),
            None => forall|i: int| 0 <= i < points.len() ==> (#[trigger] points[i]).id != id,
        },
    decreases points.len(),
{
    if points.len() > 0 {
        if points.last().id == id {
            assert(points[points.len() - 1] == points.last());
        } else {
            let rest = points.drop_last();
            lemma_latest(rest, id);
            assert(forall|j: int| 0 <= j < rest.len() ==> rest[j] == #[trigger] points[j]);
            if let Some(point) = latest(rest, id) {
                let i = choose|i: int|
                    0 <= i < rest.len() && #[trigger] rest[i] == point && point.id == id && (forall|
                        j: int,
                    | i < j < rest.len() ==> (#[trigger] rest[j]).id != id);
                assert(points[i] == point);
            }
        }
    }
}

/// Hydration with the same points a second time changes nothing.
pub proof fn law_hydrate_twice_is_once(view: AggregatorView, points: Seq<ScoredPointView>)
    ensures
        view.hydrated(points).hydrated(points) == view.hydrated(points),
{
    let once = view.hydrated(points);
    assert forall|k: GroupKeyView| #[trigger] once.groups.contains_key(k) implies once.hydrated(
        points,
    ).groups[k] == once.groups[k] by {
        assert(once.hydrated(points).groups[k].hits =~= once.groups[k].hits);
    }
    assert(once.hydrated(points).groups =~= once.groups);
}

} // verus!
