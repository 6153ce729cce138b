//! Groups of points under JSON keys.
use crate::assoc::{
    distinct, has_key, lemma_entry, lemma_len, lemma_push, lemma_update, lists_values, map_of,
};
use crate::json::{Number, Value, ValueView};
use crate::point::{ExtendedPointId, ScoredPoint, ScoredPointView};
use crate::views::{option_view, seq_view};
use vstd::prelude::*;

verus! {

/// The key of a group: a number or a string.
#[derive(Debug, PartialEq)]
pub enum GroupKey {
    Number(Number),
    String(String),
}

/// The contents of a [`GroupKey`].
pub enum GroupKeyView {
    Number(Number),
    String(Seq<char>),
}

impl View for GroupKey {
    type V = GroupKeyView;

    open spec fn view(&self) -> GroupKeyView {
        match self {
            GroupKey::Number(number) => GroupKeyView::Number(*number),
            GroupKey::String(string) => GroupKeyView::String(string@),
        }
    }
}

impl GroupKeyView {
    /// The key that stands for all keys equal to this one.
    pub open spec fn canonical(self) -> GroupKeyView {
        match self {
            GroupKeyView::Number(number) => GroupKeyView::Number(number.canonical()),
            GroupKeyView::String(_) => self,
        }
    }

    /// The JSON value of the key.
    pub open spec fn value(self) -> ValueView {
        match self {
            GroupKeyView::Number(number) => ValueView::Number(number),
            GroupKeyView::String(string) => ValueView::String(string),
        }
    }
}

/// The key that a JSON value gives: numbers and strings are keys, `null`,
/// booleans, arrays and objects are not.
pub open spec fn key_of(value: ValueView) -> Option<GroupKeyView> {
    match value {
        ValueView::Number(number) => Some(GroupKeyView::Number(number)),
        ValueView::String(string) => Some(GroupKeyView::String(string)),
        _ => None,
    }
}

impl GroupKey {
    /// The key that is the string `string`.
    pub fn from(string: &str) -> (key: GroupKey)
        ensures
            key@ == GroupKeyView::String(string@),
    {
        GroupKey::String(string.to_owned())
    }

    /// The key that a JSON value gives, if it gives one.
    pub fn from_value(value: &Value) -> (key: Option<GroupKey>)
        ensures
            option_view(key) == key_of(value@),
    {
        match value {
            Value::Number(number) => Some(GroupKey::Number(*number)),
            Value::String(string) => Some(GroupKey::String(string.clone())),
            _ => None,
        }
    }

    /// Whether two keys are equal.
    pub fn same(&self, other: &GroupKey) -> (equal: bool)
        ensures
            equal == (self@.canonical() == other@.canonical()),
    {
        match (self, other) {
            (GroupKey::Number(a), GroupKey::Number(b)) => a.same(b),
            (GroupKey::String(a), GroupKey::String(b)) => *a == *b,
            _ => false,
        }
    }

    /// The JSON value of the key.
    pub fn to_value(&self) -> (value: Value)
        ensures
            value@ == self@.value(),
    {
        match self {
            GroupKey::Number(number) => Value::Number(*number),
            GroupKey::String(string) => Value::String(string.clone()),
        }
    }
}

/// A set of points, at most one for each id: two points are the same hit when
/// they have the same id.
#[derive(Debug)]
pub struct Hits {
    points: Vec<ScoredPoint>,
}

impl View for Hits {
    type V = Map<ExtendedPointId, ScoredPointView>;

    /// The points of the set by their ids.
    closed spec fn view(&self) -> Map<ExtendedPointId, ScoredPointView> {
        map_of(self.entries())
    }
}

impl Hits {
    /// The points with their ids, in the order in which they are stored.
    closed spec fn entries(&self) -> Seq<(ExtendedPointId, ScoredPointView)> {
        self.points@.map_values(|point: ScoredPoint| (point.id, point@))
    }

    /// No two points have the same id.
    pub closed spec fn wf(&self) -> bool {
        distinct(self.entries())
    }

    /// A set without points.
    pub fn new() -> (hits: Hits)
        ensures
            hits.wf(),
            hits@ == Map::<ExtendedPointId, ScoredPointView>::empty(),
    {
        let hits = Hits { points: Vec::new() };
        assert(hits@ =~= Map::empty());
        hits
    }

    /// The number of points.
    pub fn len(&self) -> (len: usize)
        requires
            self.wf(),
        ensures
            len == self@.len(),
            self@.dom().finite(),
    {
        proof {
            lemma_len(self.entries());
        }
        self.points.len()
    }

    /// Where the point with the id `id` is stored, if it is there.
    fn position(&self, id: ExtendedPointId) -> (position: Option<usize>)
        requires
            self.wf(),
        ensures
            position is Some <==> has_key(self.entries(), id),
            position is Some <==> self@.contains_key(id),
            position matches Some(i) ==> i < self.points@.len() && self.points@[i as int].id == id,
    {
        let mut i: usize = 0;
        while i < self.points.len()
            invariant
                i <= self.points@.len(),
                forall|j: int| 0 <= j < i ==> (#[trigger] self.points@[j]).id != id,
            decreases self.points@.len() - i,
        {
            if self.points[i].id == id {
                assert(self.entries()[i as int].0 == id);
                return Some(i);
            }
            i += 1;
        }
        assert forall|j: int| 0 <= j < self.entries().len() implies (#[trigger] self.entries()[j]).0
            != id by {
            assert(self.points@[j].id != id);
        }
        None
    }

    /// Whether the set holds a point with the id of `point`.
    pub fn contains(&self, point: &ScoredPoint) -> (found: bool)
        requires
            self.wf(),
        ensures
            found == self@.contains_key(point.id),
    {
        self.position(point.id).is_some()
    }

    /// Adds `point`, unless the set holds a point with its id: then nothing
    /// changes. Tells whether the point was added.
    pub fn insert(&mut self, point: ScoredPoint) -> (added: bool)
        requires
            old(self).wf(),
        ensures
            final(self).wf(),
            added == !old(self)@.contains_key(point.id),
            final(self)@ == if added {
                old(self)@.insert(point.id, point@)
            } else {
                old(self)@
            },
    {
        match self.position(point.id) {
            Some(_) => false,
            None => {
                proof {
                    lemma_push(self.entries(), point.id, point@);
                }
                let ghost before = self.entries();
                self.points.push(point);
                assert(self.entries() =~= before.push((point.id, point@)));
                true
            },
        }
    }

    /// Puts `point` in the place of the point with its id, or adds it if there
    /// is none. Returns the point that it replaces.
    pub fn replace(&mut self, point: ScoredPoint) -> (replaced: Option<ScoredPoint>)
        requires
            old(self).wf(),
        ensures
            final(self).wf(),
            final(self)@ == old(self)@.insert(point.id, point@),
            option_view(replaced) == if old(self)@.contains_key(point.id) {
                Some(old(self)@[point.id])
            } else {
                None
            },
    {
        match self.position(point.id) {
            Some(i) => {
                proof {
                    lemma_entry(self.entries(), i as int);
                    lemma_update(self.entries(), i as int, point@);
                }
                let ghost before = self.entries();
                let mut place = point;
                std::mem::swap(&mut self.points[i], &mut place);
                assert(self.entries() =~= before.update(i as int, (point.id, point@)));
                Some(place)
            },
            None => {
                self.insert(point);
                None
            },
        }
    }

    /// Each point stands under its own id.
    pub proof fn lemma_ids(&self)
        requires
            self.wf(),
        ensures
            forall|id: ExtendedPointId| #[trigger]
                self@.contains_key(id) ==> self@[id].id == id,
    {
        assert forall|id: ExtendedPointId| #[trigger] self@.contains_key(id) implies self@[id].id
            == id by {
            let i = choose|i: int|
                0 <= i < self.entries().len() && (#[trigger] self.entries()[i]).0 == id;
            lemma_entry(self.entries(), i);
        }
    }

    /// The points, in no particular order.
    pub fn points(&self) -> (points: &Vec<ScoredPoint>)
        requires
            self.wf(),
        ensures
            lists_values(seq_view(points@), self@),
    {
        proof {
            lemma_len(self.entries());
            assert(seq_view(self.points@) =~= self.entries().map_values(
                |entry: (ExtendedPointId, ScoredPointView)| entry.1,
            ));
        }
        &self.points
    }
}

/// A group: its key, as it was first given, and its points.
#[verifier::ext_equal]
pub struct GroupView {
    pub key: GroupKeyView,
    pub hits: Map<ExtendedPointId, ScoredPointView>,
}

/// Groups by their keys, at most one for each key.
#[derive(Debug)]
pub struct GroupMap {
    groups: Vec<(GroupKey, Hits)>,
}

/// The groups of a list, each under its key.
pub open spec fn keyed_groups(groups: Seq<(GroupKey, Hits)>) -> Seq<(GroupKeyView, GroupView)> {
    groups.map_values(
        |group: (GroupKey, Hits)|
            (group.0@.canonical(), GroupView { key: group.0@, hits: group.1@ }),
    )
}

impl View for GroupMap {
    type V = Map<GroupKeyView, GroupView>;

    /// The groups by their canonical keys.
    open spec fn view(&self) -> Map<GroupKeyView, GroupView> {
        map_of(keyed_groups(self.listed()))
    }
}

impl GroupMap {
    /// The groups, in the order in which they are stored.
    pub closed spec fn listed(&self) -> Seq<(GroupKey, Hits)> {
        self.groups@
    }

    /// No two groups have the same key, and every group is a set of points.
    pub open spec fn wf(&self) -> bool {
        &&& distinct(keyed_groups(self.listed()))
        &&& forall|i: int| 0 <= i < self.listed().len() ==> (#[trigger] self.listed()[i]).1.wf()
    }

    /// A map without groups.
    pub fn new() -> (groups: GroupMap)
        ensures
            groups.wf(),
            groups@ == Map::<GroupKeyView, GroupView>::empty(),
    {
        let groups = GroupMap { groups: Vec::new() };
        assert(groups@ =~= Map::empty());
        groups
    }

    /// The number of groups.
    pub fn len(&self) -> (len: usize)
        requires
            self.wf(),
        ensures
            len == self@.len(),
            len == self.listed().len(),
            self@.dom().finite(),
    {
        proof {
            lemma_len(keyed_groups(self.listed()));
        }
        self.groups.len()
    }

    /// Where the group with the key `key` is stored, if it is there.
    fn position(&self, key: &GroupKey) -> (position: Option<usize>)
        requires
            self.wf(),
        ensures
            position is Some <==> has_key(keyed_groups(self.listed()), key@.canonical()),
            position is Some <==> self@.contains_key(key@.canonical()),
            position matches Some(i) ==> i < self.listed().len()
                && self.listed()[i as int].0@.canonical() == key@.canonical(),
    {
        let ghost keyed = keyed_groups(self.listed());
        let mut i: usize = 0;
        while i < self.groups.len()
            invariant
                i <= self.groups@.len(),
                self.listed() == self.groups@,
                keyed == keyed_groups(self.listed()),
                forall|j: int| 0 <= j < i ==> (#[trigger] keyed[j]).0 != key@.canonical(),
            decreases self.groups@.len() - i,
        {
            assert(keyed[i as int].0 == self.groups@[i as int].0@.canonical());
            if self.groups[i].0.same(key) {
                return Some(i);
            }
            i += 1;
        }
        None
    }

    /// Whether there is a group with the key `key`.
    pub fn contains_key(&self, key: &GroupKey) -> (found: bool)
        requires
            self.wf(),
        ensures
            found == self@.contains_key(key@.canonical()),
    {
        self.position(key).is_some()
    }

    /// The points of the group with the key `key`.
    pub fn get(&self, key: &GroupKey) -> (hits: Option<&Hits>)
        requires
            self.wf(),
        ensures
            hits is Some <==> self@.contains_key(key@.canonical()),
            hits matches Some(hits) ==> hits.wf() && hits@ == self@[key@.canonical()].hits,
    {
        match self.position(key) {
            Some(i) => {
                proof {
                    lemma_entry(keyed_groups(self.listed()), i as int);
                }
                Some(&self.groups[i].1)
            },
            None => None,
        }
    }

    /// The points of the group with the key `key`, to be changed; a group
    /// without points is made if there is none.
    pub fn entry(&mut self, key: GroupKey) -> (hits: &mut Hits)
        requires
            old(self).wf(),
        ensures
            hits.wf(),
            hits@ == if old(self)@.contains_key(key@.canonical()) {
                old(self)@[key@.canonical()].hits
            } else {
                Map::empty()
            },
            final(hits).wf() ==> final(self).wf(),
            final(self)@ == old(self)@.insert(
                key@.canonical(),
                GroupView {
                    key: if old(self)@.contains_key(key@.canonical()) {
                        old(self)@[key@.canonical()].key
                    } else {
                        key@
                    },
                    hits: final(hits)@,
                },
            ),
    {
        let ghost before = keyed_groups(self.listed());
        let ghost canonical = key@.canonical();
        let i: usize = match self.position(&key) {
            Some(i) => i,
            None => {
                let hits = Hits::new();
                proof {
                    lemma_push(before, canonical, GroupView { key: key@, hits: hits@ });
                }
                self.groups.push((key, hits));
                assert(keyed_groups(self.listed()) =~= before.push(
                    (canonical, GroupView { key: key@, hits: hits@ }),
                ));
                self.groups.len() - 1
            },
        };
        let ghost middle = keyed_groups(self.listed());
        let ghost listed = self.listed();
        let hits = &mut self.groups[i].1;
        proof {
            lemma_entry(middle, i as int);
            let group = GroupView { key: listed[i as int].0@, hits: final(hits)@ };
            lemma_update(middle, i as int, group);
            let after = listed.update(i as int, (listed[i as int].0, *final(hits)));
            assert(keyed_groups(after) =~= middle.update(i as int, (canonical, group)));
        }
        hits
    }

    /// Puts `hits` under the key `key`, in the place of the points that are
    /// there, which are returned.
    pub fn insert(&mut self, key: GroupKey, hits: Hits) -> (replaced: Option<Hits>)
        requires
            old(self).wf(),
            hits.wf(),
        ensures
            final(self).wf(),
            final(self)@ == old(self)@.insert(
                key@.canonical(),
                GroupView {
                    key: if old(self)@.contains_key(key@.canonical()) {
                        old(self)@[key@.canonical()].key
                    } else {
                        key@
                    },
                    hits: hits@,
                },
            ),
            option_view(replaced) == if old(self)@.contains_key(key@.canonical()) {
                Some(old(self)@[key@.canonical()].hits)
            } else {
                None
            },
    {
        let found = self.contains_key(&key);
        let mut place = hits;
        std::mem::swap(self.entry(key), &mut place);
        if found {
            Some(place)
        } else {
            None
        }
    }

    /// The points of the group that is stored at `index`, to be changed.
    pub fn hits_mut(&mut self, index: usize) -> (hits: &mut Hits)
        requires
            index < old(self).listed().len(),
        ensures
            *hits == old(self).listed()[index as int].1,
            final(self).listed() == old(self).listed().update(
                index as int,
                (old(self).listed()[index as int].0, *final(hits)),
            ),
    {
        &mut self.groups[index].1
    }

    /// The groups, in no particular order.
    pub fn groups(&self) -> (groups: &Vec<(GroupKey, Hits)>)
        ensures
            groups@ == self.listed(),
    {
        &self.groups
    }
}

} // verus!
