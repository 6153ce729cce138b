//! Weighted random selection among the points of several segments.
use crate::point::ExtendedPointId;
use crate::views::seq_view;
use vstd::prelude::*;

verus! {

/// What was read from a segment: how many points it has, and some of them in
/// random order.
pub type RandomRead = (usize, Vec<ExtendedPointId>);

/// The number of points that the segments have together.
pub open spec fn total_points(reads: Seq<RandomRead>) -> nat
    decreases reads.len(),
{
    if reads.len() == 0 {
        0
    } else {
        total_points(reads.drop_last()) + reads.last().0 as nat
    }
}

/// Whether no points were read from any segment.
pub open spec fn nothing_read(reads: Seq<RandomRead>) -> bool {
    forall|i: int| 0 <= i < reads.len() ==> (#[trigger] reads[i]).1@.len() == 0
}

/// Whether points can be selected from the reads: the segments have a number of
/// points together that can be counted, and, where points were read, have some,
/// so that each segment has a weight.
pub open spec fn weighted(reads: Seq<RandomRead>) -> bool {
    total_points(reads) <= usize::MAX && (nothing_read(reads) || total_points(reads) > 0)
}

/// Each segment has at most as many points as all have together.
pub proof fn lemma_total_points(reads: Seq<RandomRead>, i: int)
    requires
        0 <= i < reads.len(),
    ensures
        reads[i].0 <= total_points(reads),
    decreases reads.len(),
{
    if i < reads.len() - 1 {
        lemma_total_points(reads.drop_last(), i);
    }
}

/// The first segments have at most as many points as all have together.
proof fn lemma_total_points_of_first(reads: Seq<RandomRead>, n: int)
    requires
        0 <= n <= reads.len(),
    ensures
        total_points(reads.take(n)) <= total_points(reads),
    decreases reads.len() - n,
{
    if n < reads.len() {
        assert(reads.take(n + 1).drop_last() =~= reads.take(n));
        lemma_total_points_of_first(reads, n + 1);
    } else {
        assert(reads.take(n) =~= reads);
    }
}

/// The number of points that the segments have together, if it can be counted.
pub fn count_points(reads: &Vec<RandomRead>) -> (total: Option<usize>)
    ensures
        total == if total_points(reads@) <= usize::MAX {
            Some(total_points(reads@) as usize)
        } else {
            None
        },
{
    let mut total: usize = 0;
    let mut i: usize = 0;
    while i < reads.len()
        invariant
            i <= reads@.len(),
            total == total_points(reads@.take(i as int)),
        decreases reads@.len() - i,
    {
        proof {
            assert(reads@.take(i + 1).drop_last() =~= reads@.take(i as int));
            lemma_total_points_of_first(reads@, i + 1);
        }
        match total.checked_add(reads[i].0) {
            Some(sum) => {
                total = sum;
            },
            None => {
                return None;
            },
        }
        i += 1;
    }
    assert(reads@.take(i as int) =~= reads@);
    Some(total)
}

/// Whether points can be selected from the reads.
pub fn is_weighted(reads: &Vec<RandomRead>) -> (has_weights: bool)
    ensures
        has_weights == weighted(reads@),
{
    let total = match count_points(reads) {
        Some(total) => total,
        None => {
            return false;
        },
    };
    if total > 0 {
        return true;
    }
    let mut i: usize = 0;
    while i < reads.len()
        invariant
            i <= reads@.len(),
            total == 0,
            total == total_points(reads@),
            forall|j: int| 0 <= j < i ==> (#[trigger] reads@[j]).1@.len() == 0,
        decreases reads@.len() - i,
    {
        if reads[i].1.len() > 0 {
            assert(reads@[i as int].1@.len() > 0);
            return false;
        }
        i += 1;
    }
    true
}

/// A selection of points in progress. It goes round the segments; a coin is
/// tossed for each, and heads takes the last point that is left of what was
/// read from it.
#[derive(Debug)]
pub struct RandomDraw {
    limit: usize,
    available: Vec<usize>,
    total: usize,
    reads: Vec<Vec<ExtendedPointId>>,
    exhausted: Vec<bool>,
    points: Vec<ExtendedPointId>,
    segment: usize,
}

/// The contents of a [`RandomDraw`].
#[verifier::ext_equal]
pub struct DrawView {
    /// The number of points at which the selection ends.
    pub limit: nat,
    /// How many points each segment has.
    pub available: Seq<usize>,
    /// How many points the segments have together.
    pub total: nat,
    /// What is left of the points that were read from each segment.
    pub reads: Seq<Seq<ExtendedPointId>>,
    /// Which segments are known to have no points left.
    pub exhausted: Seq<bool>,
    /// The points that were selected.
    pub points: Seq<ExtendedPointId>,
    /// The segment that comes next.
    pub segment: int,
}

impl View for RandomDraw {
    type V = DrawView;

    closed spec fn view(&self) -> DrawView {
        DrawView {
            limit: self.limit as nat,
            available: self.available@,
            total: self.total as nat,
            reads: seq_view(self.reads@),
            exhausted: self.exhausted@,
            points: self.points@,
            segment: self.segment as int,
        }
    }
}

/// The selection at its start.
pub open spec fn draw_start(reads: Seq<RandomRead>, limit: nat) -> DrawView {
    DrawView {
        limit,
        available: reads.map_values(|read: RandomRead| read.0),
        total: total_points(reads),
        reads: reads.map_values(|read: RandomRead| read.1@),
        exhausted: Seq::new(reads.len(), |i: int| false),
        points: Seq::empty(),
        segment: 0,
    }
}

/// Whether `next` is the first segment after `segment`, going round, that is
/// not exhausted.
pub open spec fn is_next(exhausted: Seq<bool>, segment: int, next: int) -> bool {
    &&& 0 <= next < exhausted.len()
    &&& !exhausted[next]
    &&& if segment < next {
        forall|i: int| segment < i < next ==> exhausted[i]
    } else {
        &&& forall|i: int| segment < i < exhausted.len() ==> exhausted[i]
        &&& forall|i: int| 0 <= i < next ==> exhausted[i]
    }
}

impl DrawView {
    /// Whether no points are left in any read.
    pub open spec fn nothing_left(self) -> bool {
        forall|i: int| 0 <= i < self.reads.len() ==> (#[trigger] self.reads[i]).len() == 0
    }

    /// Whether the selection has come to its end: it has as many points as it
    /// may, or no points are left in any read.
    pub open spec fn finished(self) -> bool {
        self.points.len() == self.limit || self.nothing_left()
    }

    /// The selection after the coin for the segment fell on heads: the last
    /// point that is left is taken, or there is none and the segment is
    /// exhausted.
    pub open spec fn heads(self) -> DrawView {
        let read = self.reads[self.segment];
        if read.len() > 0 {
            DrawView {
                reads: self.reads.update(self.segment, read.drop_last()),
                points: self.points.push(read.last()),
                ..self
            }
        } else {
            DrawView { exhausted: self.exhausted.update(self.segment, true), ..self }
        }
    }

    /// The selection with the next segment in turn, unless it is at its end.
    pub open spec fn turned(self) -> DrawView {
        if self.finished() {
            self
        } else {
            DrawView {
                segment: choose|next: int| is_next(self.exhausted, self.segment, next),
                ..self
            }
        }
    }

    /// The selection after the coin for the segment fell.
    pub open spec fn tossed(self, heads: bool) -> DrawView {
        if heads {
            self.heads().turned()
        } else {
            self.turned()
        }
    }

    /// The points that are left and those that were selected belong to the
    /// segments, and the segment that comes next is not exhausted.
    pub open spec fn wf(self) -> bool {
        &&& self.available.len() == self.reads.len()
        &&& self.exhausted.len() == self.reads.len()
        &&& self.points.len() <= self.limit
        &&& forall|i: int|
            0 <= i < self.reads.len() && #[trigger] self.exhausted[i] ==> self.reads[i].len() == 0
        &&& forall|i: int| 0 <= i < self.reads.len() ==> #[trigger] self.available[i] <= self.total
        &&& !self.nothing_left() ==> self.total > 0
        &&& !self.finished() ==> 0 <= self.segment < self.reads.len()
            && !self.exhausted[self.segment]
    }
}

impl RandomDraw {
    /// A selection of `limit` points from what was read from the segments.
    pub fn new(reads: Vec<RandomRead>, limit: usize) -> (draw: RandomDraw)
        requires
            weighted(reads@),
        ensures
            draw@.wf(),
            draw@ == draw_start(reads@, limit as nat),
    {
        let total = match count_points(&reads) {
            Some(total) => total,
            None => 0,
        };
        let mut available: Vec<usize> = Vec::new();
        let mut points_read: Vec<Vec<ExtendedPointId>> = Vec::new();
        let mut exhausted: Vec<bool> = Vec::new();
        let ghost all = reads@;
        let mut i: usize = 0;
        while i < reads.len()
            invariant
                i <= reads@.len(),
                reads@ == all,
                available@.len() == i,
                points_read@.len() == i,
                exhausted@.len() == i,
                forall|j: int| 0 <= j < i ==> available@[j] == (#[trigger] all[j]).0,
                forall|j: int| 0 <= j < i ==> points_read@[j]@ == (#[trigger] all[j]).1@,
                forall|j: int| 0 <= j < i ==> !#[trigger] exhausted@[j],
            decreases reads@.len() - i,
        {
            available.push(reads[i].0);
            let points = reads[i].1.clone();
            assert(points@ =~= all[i as int].1@);
            points_read.push(points);
            exhausted.push(false);
            i += 1;
        }
        let draw = RandomDraw {
            limit,
            available,
            total,
            reads: points_read,
            exhausted,
            points: Vec::new(),
            segment: 0,
        };
        proof {
            assert(draw@.available =~= draw_start(all, limit as nat).available);
            assert(draw@.reads =~= draw_start(all, limit as nat).reads);
            assert(draw@.exhausted =~= draw_start(all, limit as nat).exhausted);
            assert(draw@ =~= draw_start(all, limit as nat));
            assert forall|j: int| 0 <= j < all.len() implies #[trigger] draw@.available[j]
                <= draw@.total by {
                lemma_total_points(all, j);
            }
            if nothing_read(all) {
                assert forall|j: int| 0 <= j < draw@.reads.len() implies (#[trigger] draw@.reads[j]).len()
                    == 0 by {
                    assert(all[j].1@.len() == 0);
                }
            }
        }
        draw
    }

    /// Whether the selection has come to its end.
    pub fn is_finished(&self) -> (finished: bool)
        ensures
            finished == self@.finished(),
    {
        if self.points.len() == self.limit {
            return true;
        }
        let mut i: usize = 0;
        while i < self.reads.len()
            invariant
                i <= self.reads@.len(),
                self.points@.len() != self.limit,
                forall|j: int| 0 <= j < i ==> (#[trigger] self.reads@[j])@.len() == 0,
            decreases self.reads@.len() - i,
        {
            if self.reads[i].len() > 0 {
                assert(self@.reads[i as int].len() > 0);
                return false;
            }
            i += 1;
        }
        assert forall|j: int| 0 <= j < self@.reads.len() implies (#[trigger] self@.reads[j]).len()
            == 0 by {
            assert(self.reads@[j]@.len() == 0);
        }
        true
    }

    /// The weight of the segment that comes next, as the number of its points
    /// and the number of all points.
    pub fn weight(&self) -> (weight: (usize, usize))
        requires
            self@.wf(),
            !self@.finished(),
        ensures
            weight.0 == self@.available[self@.segment],
            weight.1 == self@.total,
            weight.0 <= weight.1,
            weight.1 > 0,
    {
        (self.available[self.segment], self.total)
    }

    /// The points that were selected.
    pub fn into_points(self) -> (points: Vec<ExtendedPointId>)
        ensures
            points@ == self@.points,
    {
        self.points
    }

    /// Moves on to the next segment that is not exhausted.
    fn turn(&mut self)
        requires
            !old(self)@.finished(),
            old(self)@.exhausted.len() == old(self)@.reads.len(),
            0 <= old(self)@.segment < old(self)@.exhausted.len(),
            forall|i: int|
                0 <= i < old(self)@.reads.len() && #[trigger] old(self)@.exhausted[i]
                    ==> old(self)@.reads[i].len() == 0,
        ensures
            final(self)@ == old(self)@.turned(),
            is_next(old(self)@.exhausted, old(self)@.segment, final(self)@.segment),
    {
        let ghost exhausted = self@.exhausted;
        let ghost segment = self@.segment;
        let count = self.exhausted.len();
        let mut next: usize = if self.segment + 1 < count {
            self.segment + 1
        } else {
            0
        };
        proof {
            let left = choose|i: int|
                0 <= i < self@.reads.len() && (#[trigger] self@.reads[i]).len() != 0;
            assert(!exhausted[left]);
        }
        let ghost mut passed: int = 0;
        while self.exhausted[next]
            invariant
                exhausted == self.exhausted@,
                count == exhausted.len(),
                segment == self.segment,
                0 <= segment < count,
                next < count,
                *self == *old(self),
                !(forall|i: int| 0 <= i < count ==> #[trigger] exhausted[i]),
                if segment < next {
                    forall|i: int| segment < i < next ==> exhausted[i]
                } else {
                    &&& forall|i: int| segment < i < exhausted.len() ==> exhausted[i]
                    &&& forall|i: int| 0 <= i < next ==> exhausted[i]
                },
                passed == if segment < next {
                    next - segment - 1
                } else {
                    count - segment - 1 + next
                },
            decreases count - passed,
        {
            proof {
                if next == segment {
                    assert forall|i: int| 0 <= i < count implies #[trigger] exhausted[i] by {}
                }
                passed = passed + 1;
            }
            next = if next + 1 < count {
                next + 1
            } else {
                0
            };
        }
        self.segment = next;
        proof {
            assert(is_next(exhausted, segment, next as int));
            let chosen = choose|n: int| is_next(exhausted, segment, n);
            assert(is_next(exhausted, segment, chosen));
            assert(chosen == next);
            assert(self@ =~= old(self)@.turned());
        }
    }

    /// Goes on after the coin for the segment that comes next fell.
    pub fn toss(&mut self, heads: bool)
        requires
            old(self)@.wf(),
            !old(self)@.finished(),
        ensures
            final(self)@.wf(),
            final(self)@ == old(self)@.tossed(heads),
    {
        let ghost before = self@;
        let segment = self.segment;
        if heads {
            let point = self.reads[segment].pop();
            match point {
                Some(point) => {
                    self.points.push(point);
                },
                None => {
                    self.exhausted.set(segment, true);
                },
            }
            assert(self@.reads =~= before.heads().reads);
            assert(self@ =~= before.heads());
        }
        let ghost drawn = self@;
        proof {
            assert(drawn.points.len() <= drawn.limit);
            assert forall|i: int| 0 <= i < drawn.reads.len() && #[trigger] drawn.exhausted[i] implies drawn.reads[i].len()
                == 0 by {
                assert(i != segment ==> before.exhausted[i] == drawn.exhausted[i]);
            }
        }
        if !self.is_finished() {
            self.turn();
        }
    }
}

} // verus!
