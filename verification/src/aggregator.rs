//! Grouping of points by a payload key.
use crate::assoc::{lemma_entry, lemma_map_values, lists_values, lists_values_of};
use crate::groups::{key_of, keyed_groups, GroupKey, GroupKeyView, GroupMap, GroupView, Hits};
use crate::json::{values_under, Value, ValueView};
use crate::point::{ExtendedPointId, ScoredPoint, ScoredPointView};
use crate::views::seq_view;
use vstd::prelude::*;

verus! {

/// Collects points into groups by the value of a payload key.
#[derive(Debug)]
pub struct GroupsAggregator {
    pub groups: GroupMap,
    pub max_group_size: usize,
    pub grouped_by: String,
    pub max_groups: usize,
}

/// The contents of a [`GroupsAggregator`].
#[verifier::ext_equal]
pub struct AggregatorView {
    pub groups: Map<GroupKeyView, GroupView>,
    pub max_group_size: nat,
    pub grouped_by: Seq<char>,
    pub max_groups: nat,
}

impl View for GroupsAggregator {
    type V = AggregatorView;

    open spec fn view(&self) -> AggregatorView {
        AggregatorView {
            groups: self.groups@,
            max_group_size: self.max_group_size as nat,
            grouped_by: self.grouped_by@,
            max_groups: self.max_groups as nat,
        }
    }
}

impl GroupView {
    /// The group after `point` was offered to it: a full group, and one that
    /// holds a point with the same id, stays as it is.
    pub open spec fn with_point(self, point: ScoredPointView, max_group_size: nat) -> GroupView {
        if self.hits.len() == max_group_size || self.hits.contains_key(point.id) {
            self
        } else {
            GroupView { key: self.key, hits: self.hits.insert(point.id, point) }
        }
    }
}

/// The key of the group that a point belongs to, when its values of the
/// key `grouped_by` are `values`: the first of them, if it is a number or a
/// string.
pub open spec fn group_key(values: Seq<ValueView>) -> Option<GroupKeyView> {
    if values.len() == 0 {
        None
    } else {
        key_of(values[0])
    }
}

/// The values of the key `grouped_by` in the payload of a point.
pub open spec fn values_of(point: ScoredPointView, grouped_by: Seq<char>) -> Seq<ValueView> {
    match point.payload {
        Some(entries) => values_under(entries, grouped_by),
        None => Seq::empty(),
    }
}

impl AggregatorView {
    /// The groups after `point` was offered, with `values` as its values of
    /// the key `grouped_by`. A point without a group key is left out, and so is
    /// one that would open a group when there are `max_groups` groups.
    pub open spec fn with_point(
        self,
        point: ScoredPointView,
        values: Seq<ValueView>,
    ) -> AggregatorView {
        match group_key(values) {
            None => self,
            Some(key) => {
                let k = key.canonical();
                if !self.groups.contains_key(k) && self.groups.len() >= self.max_groups {
                    self
                } else {
                    let group = if self.groups.contains_key(k) {
                        self.groups[k]
                    } else {
                        GroupView { key, hits: Map::empty() }
                    };
                    AggregatorView {
                        groups: self.groups.insert(
                            k,
                            group.with_point(point, self.max_group_size),
                        ),
                        ..self
                    }
                }
            },
        }
    }

    /// The groups after the points were offered one after another.
    pub open spec fn with_points(self, points: Seq<ScoredPointView>) -> AggregatorView
        decreases points.len(),
    {
        if points.len() == 0 {
            self
        } else {
            let point = points.last();
            self.with_points(points.drop_last()).with_point(
                point,
                values_of(point, self.grouped_by),
            )
        }
    }

    /// The groups after the points were offered one after another, each with
    /// the values that it is grouped by.
    pub open spec fn with_valued_points(
        self,
        points: Seq<ScoredPointView>,
        values: Seq<Seq<ValueView>>,
    ) -> AggregatorView
        decreases points.len(),
    {
        if points.len() == 0 {
            self
        } else {
            self.with_valued_points(points.drop_last(), values.drop_last()).with_point(
                points.last(),
                values.last(),
            )
        }
    }
}

/// The contents of lists of values.
pub open spec fn values_view(values: Seq<Vec<Value>>) -> Seq<Seq<ValueView>> {
    Seq::new(values.len(), |i: int| seq_view(values[i]@))
}

/// The JSON values of the keys of the groups with `filled` points or more, if
/// `full`, or with fewer, if not.
pub open spec fn key_values(
    groups: Map<GroupKeyView, GroupView>,
    filled: nat,
    full: bool,
) -> Map<GroupKeyView, ValueView> {
    Map::new(
        |k: GroupKeyView| groups.contains_key(k) && (groups[k].hits.len() >= filled) == full,
        |k: GroupKeyView| groups[k].key.value(),
    )
}

/// Whether a point with the id `id` is in some group.
pub open spec fn has_id(groups: Map<GroupKeyView, GroupView>, id: ExtendedPointId) -> bool {
    exists|k: GroupKeyView| #[trigger]
        groups.contains_key(k) && groups[k].hits.contains_key(id)
}

/// The points of all groups, by the key of the group and the id of the point.
pub open spec fn all_hits(groups: Map<GroupKeyView, GroupView>) -> Map<
    (GroupKeyView, ExtendedPointId),
    ScoredPointView,
> {
    Map::new(
        |at: (GroupKeyView, ExtendedPointId)|
            groups.contains_key(at.0) && groups[at.0].hits.contains_key(at.1),
        |at: (GroupKeyView, ExtendedPointId)| groups[at.0].hits[at.1],
    )
}

/// The last of the points with the id `id`.
pub open spec fn latest(points: Seq<ScoredPointView>, id: ExtendedPointId) -> Option<
    ScoredPointView,
>
    decreases points.len(),
{
    if points.len() == 0 {
        None
    } else if points.last().id == id {
        Some(points.last())
    } else {
        latest(points.drop_last(), id)
    }
}

impl GroupView {
    /// The group with each of its points replaced by the last of `points` that
    /// has its id, if there is one.
    pub open spec fn hydrated(self, points: Seq<ScoredPointView>) -> GroupView {
        GroupView {
            key: self.key,
            hits: Map::new(
                |id: ExtendedPointId| self.hits.contains_key(id),
                |id: ExtendedPointId|
                    match latest(points, id) {
                        Some(point) => point,
                        None => self.hits[id],
                    },
            ),
        }
    }
}

impl AggregatorView {
    /// The groups with their points replaced by those of `points`.
    pub open spec fn hydrated(self, points: Seq<ScoredPointView>) -> AggregatorView {
        AggregatorView {
            groups: self.groups.map_values(|group: GroupView| group.hydrated(points)),
            ..self
        }
    }
}

impl GroupsAggregator {
    /// The groups are sets of points under distinct keys.
    pub open spec fn wf(&self) -> bool {
        self.groups.wf()
    }

    /// An aggregator without groups, for at most `groups` groups of at most
    /// `group_size` points each, by the payload key `grouped_by`.
    pub fn new(groups: usize, group_size: usize, grouped_by: String) -> (aggregator: Self)
        ensures
            aggregator.wf(),
            aggregator@ == (AggregatorView {
                groups: Map::empty(),
                max_group_size: group_size as nat,
                grouped_by: grouped_by@,
                max_groups: groups as nat,
            }),
    {
        GroupsAggregator {
            groups: GroupMap::new(),
            max_group_size: group_size,
            grouped_by,
            max_groups: groups,
        }
    }

    /// Offers a point whose values of the key `grouped_by` are `values`.
    pub fn add_point_with_values(&mut self, point: &ScoredPoint, values: &Vec<Value>)
        requires
            old(self).wf(),
        ensures
            final(self).wf(),
            final(self)@ == old(self)@.with_point(point@, seq_view(values@)),
    {
        // If the key has several values, the first one counts.
        if values.len() == 0 {
            return;
        }
        // Arrays, objects, booleans and null are no keys.
        let key = match GroupKey::from_value(&values[0]) {
            Some(key) => key,
            None => return,
        };
        if !self.groups.contains_key(&key) && self.groups.len() >= self.max_groups {
            return;
        }
        let max_group_size = self.max_group_size;
        let hits = self.groups.entry(key);
        if hits.len() == max_group_size {
            return;
        }
        hits.insert(point.clone());
    }

    /// Adds a point to the group that the first value of the key `grouped_by`
    /// in its payload names. Where the values are not looked up in the payload
    /// that the point carries, [`GroupsAggregator::add_point_with_values`] takes
    /// them.
    pub fn add_point(&mut self, point: &ScoredPoint)
        requires
            old(self).wf(),
        ensures
            final(self).wf(),
            final(self)@ == old(self)@.with_point(
                point@,
                values_of(point@, old(self)@.grouped_by),
            ),
    {
        let values = match &point.payload {
            Some(payload) => payload.get_value(&self.grouped_by),
            None => Vec::new(),
        };
        self.add_point_with_values(point, &values);
    }

    /// Adds points, one after another, to the groups that the first values of
    /// the key `grouped_by` in their payloads name. Where the values are not
    /// looked up in the payloads that the points carry,
    /// [`GroupsAggregator::add_points_with_values`] takes them.
    pub fn add_points(&mut self, points: &[ScoredPoint])
        requires
            old(self).wf(),
        ensures
            final(self).wf(),
            final(self)@ == old(self)@.with_points(seq_view(points@)),
    {
        let ghost all = seq_view(points@);
        let mut i: usize = 0;
        while i < points.len()
            invariant
                self.wf(),
                i <= points@.len(),
                all == seq_view(points@),
                self@ == old(self)@.with_points(all.take(i as int)),
                self@.grouped_by == old(self)@.grouped_by,
            decreases points@.len() - i,
        {
            self.add_point(&points[i]);
            proof {
                assert(all.take(i + 1).drop_last() =~= all.take(i as int));
                assert(all.take(i + 1).last() == points@[i as int]@);
            }
            i += 1;
        }
        assert(all.take(i as int) =~= all);
    }

    /// Offers points one after another, each with the values found in it under
    /// the key that the points are grouped by.
    pub fn add_points_with_values(&mut self, points: &[ScoredPoint], values: &Vec<Vec<Value>>)
        requires
            old(self).wf(),
            points@.len() == values@.len(),
        ensures
            final(self).wf(),
            final(self)@ == old(self)@.with_valued_points(
                seq_view(points@),
                values_view(values@),
            ),
    {
        let ghost all = seq_view(points@);
        let ghost found = values_view(values@);
        let mut i: usize = 0;
        while i < points.len()
            invariant
                self.wf(),
                i <= points@.len(),
                points@.len() == values@.len(),
                all == seq_view(points@),
                found == values_view(values@),
                self@ == old(self)@.with_valued_points(all.take(i as int), found.take(i as int)),
            decreases points@.len() - i,
        {
            self.add_point_with_values(&points[i], &values[i]);
            proof {
                assert(all.take(i + 1).drop_last() =~= all.take(i as int));
                assert(all.take(i + 1).last() == points@[i as int]@);
                assert(found.take(i + 1).drop_last() =~= found.take(i as int));
                assert(found.take(i + 1).last() == seq_view(values@[i as int]@));
            }
            i += 1;
        }
        assert(all.take(i as int) =~= all);
        assert(found.take(i as int) =~= found);
    }

    /// The number of groups.
    pub fn len(&self) -> (len: usize)
        requires
            self.wf(),
        ensures
            len == self@.groups.len(),
    {
        self.groups.len()
    }

    /// The groups.
    pub fn groups(&self) -> (groups: &GroupMap)
        ensures
            *groups == self.groups,
    {
        &self.groups
    }
}

impl GroupsAggregator {
    /// The values of the keys of the groups that are full, or of those that
    /// are not.
    fn keys_of_groups(&self, full: bool) -> (values: Vec<Value>)
        requires
            self.wf(),
        ensures
            lists_values(
                seq_view(values@),
                key_values(self@.groups, self@.max_group_size, full),
            ),
    {
        let groups = self.groups.groups();
        let ghost keyed = keyed_groups(groups@);
        let ghost wanted = key_values(self@.groups, self@.max_group_size, full);
        let ghost mut keys: Seq<GroupKeyView> = Seq::empty();
        let mut values: Vec<Value> = Vec::new();
        let mut i: usize = 0;
        while i < groups.len()
            invariant
                self.wf(),
                groups@ == self.groups.listed(),
                keyed == keyed_groups(groups@),
                wanted == key_values(self@.groups, self@.max_group_size, full),
                i <= groups@.len(),
                keys.no_duplicates(),
                forall|k: GroupKeyView|
                    #![trigger keys.contains(k)]
                    keys.contains(k) ==> wanted.contains_key(k) && exists|j: int|
                        0 <= j < i && #[trigger] keyed[j].0 == k,
                forall|j: int|
                    0 <= j < i && wanted.contains_key(#[trigger] keyed[j].0) ==> keys.contains(
                        keyed[j].0,
                    ),
                values@.len() == keys.len(),
                forall|j: int|
                    0 <= j < keys.len() ==> #[trigger] values@[j]@ == wanted[keys[j]],
            decreases groups@.len() - i,
        {
            let ghost key = keyed[i as int].0;
            let ghost before = keys;
            proof {
                lemma_entry(keyed, i as int);
            }
            if (groups[i].1.len() >= self.max_group_size) == full {
                assert(wanted.contains_key(key));
                values.push(groups[i].0.to_value());
                proof {
                    keys = keys.push(key);
                    assert(!before.contains(key));
                    assert(keys[before.len() as int] == key);
                    assert forall|k: GroupKeyView| #[trigger] before.contains(k) implies keys.contains(
                        k,
                    ) by {
                        let j = choose|j: int| 0 <= j < before.len() && before[j] == k;
                        assert(keys[j] == k);
                    }
                }
            }
            assert forall|k: GroupKeyView| #[trigger] keys.contains(k) implies wanted.contains_key(
                k,
            ) && exists|j: int| 0 <= j < i + 1 && #[trigger] keyed[j].0 == k by {
                if before.contains(k) {
                    let j = choose|j: int| 0 <= j < i && #[trigger] keyed[j].0 == k;
                    assert(keyed[j].0 == k);
                } else {
                    assert(k == key);
                }
            }
            i += 1;
        }
        proof {
            assert(keys.to_set() =~= wanted.dom()) by {
                assert forall|k: GroupKeyView| wanted.contains_key(k) implies keys.contains(k) by {
                    let j = choose|j: int| 0 <= j < keyed.len() && (#[trigger] keyed[j]).0 == k;
                    assert(keyed[j].0 == k);
                }
            }
            assert(lists_values_of(seq_view(values@), wanted, keys));
        }
        values
    }

    /// The keys of the groups that hold fewer points than a group may hold, in
    /// no particular order.
    pub fn keys_of_unfilled_groups(&self) -> (values: Vec<Value>)
        requires
            self.wf(),
        ensures
            lists_values(
                seq_view(values@),
                key_values(self@.groups, self@.max_group_size, false),
            ),
    {
        self.keys_of_groups(false)
    }

    /// The keys of the groups that hold as many points as a group may hold, or
    /// more, in no particular order.
    pub fn keys_of_filled_groups(&self) -> (values: Vec<Value>)
        requires
            self.wf(),
        ensures
            lists_values(
                seq_view(values@),
                key_values(self@.groups, self@.max_group_size, true),
            ),
    {
        self.keys_of_groups(true)
    }
}

/// Whether `ids` holds `id`.
fn contains_id(ids: &Vec<ExtendedPointId>, id: ExtendedPointId) -> (found: bool)
    ensures
        found == ids@.contains(id),
{
    let mut i: usize = 0;
    while i < ids.len()
        invariant
            i <= ids@.len(),
            forall|j: int| 0 <= j < i ==> ids@[j] != id,
        decreases ids@.len() - i,
    {
        if ids[i] == id {
            return true;
        }
        i += 1;
    }
    false
}

/// Whether one of the first `end` groups of a list holds a point with the id
/// `id`.
spec fn listed_id(groups: Seq<(GroupKey, Hits)>, end: int, id: ExtendedPointId) -> bool {
    exists|i: int| 0 <= i < end && (#[trigger] groups[i]).1@.contains_key(id)
}

/// A group is in the map that its list stands for.
pub proof fn lemma_listed(groups: &GroupMap, i: int)
    requires
        groups.wf(),
        0 <= i < groups.listed().len(),
    ensures
        groups@.contains_key(groups.listed()[i].0@.canonical()),
        groups@[groups.listed()[i].0@.canonical()] == (GroupView {
            key: groups.listed()[i].0@,
            hits: groups.listed()[i].1@,
        }),
{
    lemma_entry(keyed_groups(groups.listed()), i);
}

impl GroupsAggregator {
    /// The ids of the points that are in some group, each once, in no
    /// particular order.
    pub fn ids(&self) -> (ids: Vec<ExtendedPointId>)
        requires
            self.wf(),
        ensures
            ids@.no_duplicates(),
            forall|id: ExtendedPointId| #[trigger] ids@.contains(id) <==> has_id(self@.groups, id),
    {
        let groups = self.groups.groups();
        let mut ids: Vec<ExtendedPointId> = Vec::new();
        let mut i: usize = 0;
        while i < groups.len()
            invariant
                self.wf(),
                groups@ == self.groups.listed(),
                i <= groups@.len(),
                ids@.no_duplicates(),
                forall|id: ExtendedPointId| #[trigger]
                    ids@.contains(id) <==> listed_id(groups@, i as int, id),
            decreases groups@.len() - i,
        {
            let points = groups[i].1.points();
            let ghost hits = groups@[i as int].1@;
            let ghost keys = choose|keys: Seq<ExtendedPointId>|
                lists_values_of(seq_view(points@), hits, keys);
            proof {
                groups@[i as int].1.lemma_ids();
                assert forall|t: int| 0 <= t < points@.len() implies (#[trigger] points@[t]).id
                    == keys[t] by {
                    assert(seq_view(points@)[t] == hits[keys[t]]);
                    assert(keys.to_set().contains(keys[t]));
                    assert(hits.contains_key(keys[t]));
                }
            }
            let mut j: usize = 0;
            while j < points.len()
                invariant
                    i < groups@.len(),
                    j <= points@.len(),
                    keys.len() == points@.len(),
                    forall|t: int|
                        0 <= t < points@.len() ==> (#[trigger] points@[t]).id == keys[t],
                    ids@.no_duplicates(),
                    forall|id: ExtendedPointId| #[trigger]
                        ids@.contains(id) <==> listed_id(groups@, i as int, id) || keys.take(
                            j as int,
                        ).contains(id),
                decreases points@.len() - j,
            {
                let id = points[j].id;
                let ghost before = ids@;
                assert(keys.take(j + 1) =~= keys.take(j as int).push(id));
                if !contains_id(&ids, id) {
                    ids.push(id);
                    assert(ids@ =~= before.push(id));
                }
                assert forall|other: ExtendedPointId| #[trigger]
                    ids@.contains(other) <==> listed_id(groups@, i as int, other) || keys.take(
                        j + 1,
                    ).contains(other) by {
                    broadcast use vstd::seq_lib::group_seq_properties;
                    assert(before.push(id).contains(other) <==> before.contains(other) || other == id);
                    assert(keys.take(j as int).push(id).contains(other) <==> keys.take(
                        j as int,
                    ).contains(other) || other == id);
                }
                j += 1;
            }
            assert(keys.take(j as int) =~= keys);
            assert forall|id: ExtendedPointId| #[trigger] ids@.contains(id) <==> listed_id(
                groups@,
                i + 1,
                id,
            ) by {
                assert(keys.contains(id) <==> keys.to_set().contains(id));
                assert(keys.contains(id) <==> hits.contains_key(id));
                if listed_id(groups@, i as int, id) {
                    let g = choose|g: int| 0 <= g < i && (#[trigger] groups@[g]).1@.contains_key(id);
                    assert(groups@[g].1@.contains_key(id));
                }
                if hits.contains_key(id) {
                    assert(groups@[i as int].1@.contains_key(id));
                }
            }
            i += 1;
        }
        assert forall|id: ExtendedPointId| #[trigger] ids@.contains(id) <==> has_id(
            self@.groups,
            id,
        ) by {
            if listed_id(groups@, i as int, id) {
                let g = choose|g: int| 0 <= g < i && (#[trigger] groups@[g]).1@.contains_key(id);
                lemma_listed(&self.groups, g);
            }
            if has_id(self@.groups, id) {
                let k = choose|k: GroupKeyView| #[trigger]
                    self@.groups.contains_key(k) && self@.groups[k].hits.contains_key(id);
                let keyed = keyed_groups(groups@);
                let g = choose|g: int| 0 <= g < keyed.len() && (#[trigger] keyed[g]).0 == k;
                lemma_listed(&self.groups, g);
                assert(groups@[g].1@.contains_key(id));
            }
        }
        ids
    }

    /// The points of all groups, in no particular order. A point that is in
    /// several groups comes once for each.
    pub fn flatten(&self) -> (points: Vec<ScoredPoint>)
        requires
            self.wf(),
        ensures
            lists_values(seq_view(points@), all_hits(self@.groups)),
    {
        let groups = self.groups.groups();
        let ghost keyed = keyed_groups(groups@);
        let ghost all = all_hits(self@.groups);
        let ghost mut keys: Seq<(GroupKeyView, ExtendedPointId)> = Seq::empty();
        let mut flat: Vec<ScoredPoint> = Vec::new();
        let mut i: usize = 0;
        while i < groups.len()
            invariant
                self.wf(),
                groups@ == self.groups.listed(),
                keyed == keyed_groups(groups@),
                all == all_hits(self@.groups),
                i <= groups@.len(),
                keys.no_duplicates(),
                forall|at: (GroupKeyView, ExtendedPointId)| #[trigger]
                    keys.contains(at) <==> all.contains_key(at) && exists|g: int|
                        0 <= g < i && (#[trigger] keyed[g]).0 == at.0,
                flat@.len() == keys.len(),
                forall|j: int| 0 <= j < keys.len() ==> #[trigger] flat@[j]@ == all[keys[j]],
            decreases groups@.len() - i,
        {
            let points = groups[i].1.points();
            let ghost key = keyed[i as int].0;
            let ghost hits = groups@[i as int].1@;
            let ghost ids = choose|ids: Seq<ExtendedPointId>|
                lists_values_of(seq_view(points@), hits, ids);
            let ghost added = ids.map_values(|id: ExtendedPointId| (key, id));
            let ghost before = keys;
            proof {
                lemma_listed(&self.groups, i as int);
                assert forall|t: int| 0 <= t < points@.len() implies #[trigger] points@[t]@
                    == all[added[t]] by {
                    assert(seq_view(points@)[t] == hits[ids[t]]);
                    assert(ids.to_set().contains(ids[t]));
                }
            }
            let mut j: usize = 0;
            while j < points.len()
                invariant
                    j <= points@.len(),
                    flat@.len() == before.len() + j,
                    forall|t: int|
                        0 <= t < before.len() ==> #[trigger] flat@[t]@ == all[before[t]],
                    forall|t: int|
                        0 <= t < points@.len() ==> #[trigger] points@[t]@ == all[added[t]],
                    forall|t: int|
                        before.len() <= t < before.len() + j ==> #[trigger] flat@[t]@
                            == all[added[t - before.len()]],
                decreases points@.len() - j,
            {
                flat.push(points[j].clone());
                j += 1;
            }
            proof {
                keys = before + added;
                assert forall|at: (GroupKeyView, ExtendedPointId)| #[trigger]
                    added.contains(at) <==> at.0 == key && hits.contains_key(at.1) by {
                    if added.contains(at) {
                        let t = choose|t: int| 0 <= t < added.len() && added[t] == at;
                        assert(ids.to_set().contains(ids[t]));
                    }
                    if at.0 == key && hits.contains_key(at.1) {
                        assert(ids.to_set().contains(at.1));
                        let t = choose|t: int| 0 <= t < ids.len() && ids[t] == at.1;
                        assert(added[t] == at);
                    }
                }
                assert forall|at: (GroupKeyView, ExtendedPointId)| #[trigger]
                    keys.contains(at) <==> before.contains(at) || added.contains(at) by {
                    if before.contains(at) {
                        let t = choose|t: int| 0 <= t < before.len() && before[t] == at;
                        assert(keys[t] == at);
                    }
                    if added.contains(at) {
                        let t = choose|t: int| 0 <= t < added.len() && added[t] == at;
                        assert(keys[before.len() + t] == at);
                    }
                }
                assert(keys.no_duplicates()) by {
                    assert forall|s: int, t: int| 0 <= s < t < keys.len() implies keys[s]
                        != keys[t] by {
                        if s < before.len() && t >= before.len() {
                            assert(before.contains(keys[s]));
                            assert(added[t - before.len()] == keys[t]);
                        } else if s >= before.len() {
                            assert(ids[s - before.len()] != ids[t - before.len()]);
                        }
                    }
                }
                assert forall|at: (GroupKeyView, ExtendedPointId)| #[trigger]
                    keys.contains(at) <==> all.contains_key(at) && exists|g: int|
                        0 <= g < i + 1 && (#[trigger] keyed[g]).0 == at.0 by {
                    if added.contains(at) {
                        assert(keyed[i as int].0 == at.0);
                    }
                    if before.contains(at) {
                        let g = choose|g: int| 0 <= g < i && (#[trigger] keyed[g]).0 == at.0;
                        assert(keyed[g].0 == at.0);
                    }
                }
            }
            i += 1;
        }
        proof {
            assert(keys.to_set() =~= all.dom()) by {
                assert forall|at: (GroupKeyView, ExtendedPointId)|
                    all.contains_key(at) implies keys.contains(at) by {
                    let g = choose|g: int| 0 <= g < keyed.len() && (#[trigger] keyed[g]).0 == at.0;
                    assert(keyed[g].0 == at.0);
                }
            }
            assert(lists_values_of(seq_view(flat@), all, keys));
        }
        flat
    }
}

/// Replacing by one more point, where it is a hit, is replacing by one point
/// more.
proof fn lemma_hydrated_step(group: GroupView, points: Seq<ScoredPointView>, point: ScoredPointView)
    ensures
        group.hydrated(points.push(point)).hits == if group.hits.contains_key(point.id) {
            group.hydrated(points).hits.insert(point.id, point)
        } else {
            group.hydrated(points).hits
        },
{
    assert(points.push(point).drop_last() =~= points);
    assert(group.hydrated(points.push(point)).hits =~= if group.hits.contains_key(point.id) {
        group.hydrated(points).hits.insert(point.id, point)
    } else {
        group.hydrated(points).hits
    });
}

/// Replacing by no points changes nothing.
proof fn lemma_hydrated_empty(group: GroupView)
    ensures
        group.hydrated(Seq::empty()) == group,
{
    assert(group.hydrated(Seq::empty()).hits =~= group.hits);
}

/// The group that is stored at `i`.
spec fn group_at(groups: Seq<(GroupKey, Hits)>, i: int) -> GroupView {
    GroupView { key: groups[i].0@, hits: groups[i].1@ }
}

/// Whether `groups` are the groups `before`, with their points replaced by
/// `points`.
spec fn hydrated_list(
    groups: Seq<(GroupKey, Hits)>,
    before: Seq<(GroupKey, Hits)>,
    points: Seq<ScoredPointView>,
) -> bool {
    &&& groups.len() == before.len()
    &&& forall|i: int|
        #![trigger groups[i]]
        0 <= i < groups.len() ==> groups[i].1.wf() && groups[i].0 == before[i].0
            && groups[i].1@ == group_at(before, i).hydrated(points).hits
}

impl GroupsAggregator {
    /// Replaces each point in each group by the last of the given points that
    /// has its id, so that it gets the payload and the vector of that point.
    pub fn hydrate_from(&mut self, points: &[ScoredPoint])
        requires
            old(self).wf(),
        ensures
            final(self).wf(),
            final(self)@ == old(self)@.hydrated(seq_view(points@)),
    {
        let ghost all = seq_view(points@);
        let ghost before = self.groups.listed();
        let ghost same = *self;
        let mut n: usize = 0;
        assert forall|i: int| 0 <= i < before.len() implies (#[trigger] before[i]).1@ == group_at(
            before,
            i,
        ).hydrated(all.take(0)).hits by {
            lemma_hydrated_empty(group_at(before, i));
            assert(all.take(0) =~= Seq::empty());
        }
        while n < points.len()
            invariant
                n <= points@.len(),
                all == seq_view(points@),
                hydrated_list(self.groups.listed(), before, all.take(n as int)),
                self.max_group_size == same.max_group_size,
                self.grouped_by == same.grouped_by,
                self.max_groups == same.max_groups,
            decreases points@.len() - n,
        {
            let point = &points[n];
            let count = self.groups.groups().len();
            assert(all.take(n + 1) =~= all.take(n as int).push(point@));
            let mut i: usize = 0;
            while i < count
                invariant
                    n < points@.len(),
                    all == seq_view(points@),
                    point@ == all[n as int],
                    all.take(n + 1) == all.take(n as int).push(point@),
                    i <= count,
                    count == before.len(),
                    self.groups.listed().len() == count,
                    forall|g: int|
                        #![trigger self.groups.listed()[g]]
                        0 <= g < count ==> {
                            &&& self.groups.listed()[g].1.wf()
                            &&& self.groups.listed()[g].0 == before[g].0
                            &&& self.groups.listed()[g].1@ == group_at(before, g).hydrated(
                                all.take(
                                    if g < i {
                                        n + 1
                                    } else {
                                        n as int
                                    },
                                ),
                            ).hits
                        },
                    self.max_group_size == same.max_group_size,
                    self.grouped_by == same.grouped_by,
                    self.max_groups == same.max_groups,
                decreases count - i,
            {
                proof {
                    lemma_hydrated_step(group_at(before, i as int), all.take(n as int), point@);
                }
                let hits = self.groups.hits_mut(i);
                if hits.contains(point) {
                    let replaced = hits.replace(point.clone());
                    assert(replaced is Some);
                }
                i += 1;
            }
            n += 1;
        }
        proof {
            assert(all.take(n as int) =~= all);
            let keyed = keyed_groups(before);
            let after = keyed_groups(self.groups.listed());
            let value = |group: GroupView| group.hydrated(all);
            assert forall|i: int| 0 <= i < keyed.len() implies (#[trigger] after[i]).0
                == keyed[i].0 && after[i].1 == value(keyed[i].1) by {
                assert(self.groups.listed()[i].0 == before[i].0);
                assert(keyed[i].1 == group_at(before, i));
            }
            lemma_map_values(keyed, after, value);
            assert(self@.groups =~= old(self)@.hydrated(all).groups);
        }
    }
}

} // verus!
