//! What holds of a random selection, however the coins fall.
use crate::point::ExtendedPointId;
use crate::random::{draw_start, is_next, lemma_total_points, nothing_read, weighted, DrawView, RandomRead};
use vstd::multiset::Multiset;
use vstd::prelude::*;

verus! {

impl DrawView {
    /// The selection after several coins fell; it stays as it is once it is at
    /// its end.
    pub open spec fn tossed_all(self, coins: Seq<bool>) -> DrawView
        decreases coins.len(),
    {
        if coins.len() == 0 {
            self
        } else {
            let before = self.tossed_all(coins.drop_last());
            if before.finished() {
                before
            } else {
                before.tossed(coins.last())
            }
        }
    }

    /// Whether coins can fall so: heads needs a weight above zero, tails a
    /// weight below one.
    pub open spec fn can_fall(self, coins: Seq<bool>) -> bool
        decreases coins.len(),
    {
        coins.len() > 0 ==> {
            let before = self.tossed_all(coins.drop_last());
            &&& self.can_fall(coins.drop_last())
            &&& !before.finished() ==> if coins.last() {
                before.available[before.segment] > 0
            } else {
                before.available[before.segment] < before.total
            }
        }
    }

    /// Whether every segment of whose points some are left has points.
    pub open spec fn has_what_is_left(self) -> bool {
        forall|i: int|
            0 <= i < self.reads.len() && (#[trigger] self.reads[i]).len() > 0 ==> self.available[i]
                > 0
    }

    /// A segment of whose points some are left.
    pub open spec fn segment_with_points(self) -> int {
        choose|i: int| 0 <= i < self.reads.len() && (#[trigger] self.reads[i]).len() > 0
    }

    /// How far it is, going round, from the segment that comes next to a
    /// segment of whose points some are left.
    pub open spec fn way_to_points(self) -> int {
        let target = self.segment_with_points();
        if self.segment <= target {
            target - self.segment
        } else {
            self.reads.len() - self.segment + target
        }
    }

    /// The points of the selection and those that are left.
    pub open spec fn all_points(self) -> Multiset<ExtendedPointId> {
        self.points.to_multiset().add(self.reads.flatten().to_multiset())
    }

    /// The number of points that are left and of segments that are not known to
    /// be exhausted.
    pub open spec fn work_left(self) -> nat {
        self.reads.flatten().len() + open_segments(self.exhausted)
    }
}

/// The number of segments that are not exhausted.
pub open spec fn open_segments(exhausted: Seq<bool>) -> nat
    decreases exhausted.len(),
{
    if exhausted.len() == 0 {
        0
    } else {
        open_segments(exhausted.drop_last()) + if exhausted.last() {
            0nat
        } else {
            1nat
        }
    }
}

/// One more exhausted segment is one open segment less.
proof fn lemma_open_segments(exhausted: Seq<bool>, i: int)
    requires
        0 <= i < exhausted.len(),
        !exhausted[i],
    ensures
        open_segments(exhausted) == open_segments(exhausted.update(i, true)) + 1,
    decreases exhausted.len(),
{
    let updated = exhausted.update(i, true);
    if i == exhausted.len() - 1 {
        assert(updated.drop_last() =~= exhausted.drop_last());
    } else {
        lemma_open_segments(exhausted.drop_last(), i);
        assert(updated.drop_last() =~= exhausted.drop_last().update(i, true));
    }
}

/// The points that are left when the last of a segment is taken.
proof fn lemma_take_last(reads: Seq<Seq<ExtendedPointId>>, i: int)
    requires
        0 <= i < reads.len(),
        reads[i].len() > 0,
    ensures
        reads.flatten().to_multiset() == reads.update(
            i,
            reads[i].drop_last(),
        ).flatten().to_multiset().insert(reads[i].last()),
        reads.flatten().len() == reads.update(i, reads[i].drop_last()).flatten().len() + 1,
    decreases reads.len(),
{
    broadcast use vstd::seq_lib::group_to_multiset_ensures;

    let updated = reads.update(i, reads[i].drop_last());
    let head = reads.first();
    let rest = reads.drop_first();
    if i == 0 {
        assert(updated.drop_first() =~= rest);
        assert(head =~= head.drop_last().push(head.last()));
        vstd::seq_lib::lemma_multiset_commutative(head, rest.flatten());
        vstd::seq_lib::lemma_multiset_commutative(head.drop_last(), rest.flatten());
    } else {
        lemma_take_last(rest, i - 1);
        assert(updated.drop_first() =~= rest.update(i - 1, rest[i - 1].drop_last()));
        assert(updated.first() == head);
        vstd::seq_lib::lemma_multiset_commutative(head, rest.flatten());
        vstd::seq_lib::lemma_multiset_commutative(head, updated.drop_first().flatten());
    }
    assert(reads.flatten().to_multiset() =~= updated.flatten().to_multiset().insert(
        reads[i].last(),
    ));
}

/// A selection that is not at its end has a next segment.
proof fn lemma_next_exists(exhausted: Seq<bool>, segment: int, from: int)
    requires
        0 <= segment < exhausted.len(),
        0 <= from < exhausted.len(),
        exists|i: int| 0 <= i < exhausted.len() && !#[trigger] exhausted[i],
        if segment < from {
            forall|i: int| segment < i < from ==> exhausted[i]
        } else {
            &&& forall|i: int| segment < i < exhausted.len() ==> exhausted[i]
            &&& forall|i: int| 0 <= i < from ==> exhausted[i]
        },
    ensures
        exists|next: int| is_next(exhausted, segment, next),
    decreases
            if segment < from {
                exhausted.len() - from + segment + 1
            } else {
                segment + 1 - from
            },
{
    if !exhausted[from] {
        assert(is_next(exhausted, segment, from));
    } else if from == segment {
        assert forall|i: int| 0 <= i < exhausted.len() implies #[trigger] exhausted[i] by {}
        assert(false);
    } else if from + 1 < exhausted.len() {
        lemma_next_exists(exhausted, segment, from + 1);
    } else {
        lemma_next_exists(exhausted, segment, 0);
    }
}

/// Moving on to the next segment keeps a selection sound.
pub proof fn lemma_turned(draw: DrawView)
    requires
        draw.exhausted.len() == draw.reads.len(),
        0 <= draw.segment < draw.reads.len(),
        forall|i: int|
            0 <= i < draw.reads.len() && #[trigger] draw.exhausted[i] ==> draw.reads[i].len() == 0,
    ensures
        !draw.finished() ==> is_next(draw.exhausted, draw.segment, draw.turned().segment),
        draw.turned().finished() == draw.finished(),
{
    if !draw.finished() {
        let from = if draw.segment + 1 < draw.exhausted.len() {
            draw.segment + 1
        } else {
            0
        };
        let left = choose|i: int| 0 <= i < draw.reads.len() && (#[trigger] draw.reads[i]).len() != 0;
        assert(!draw.exhausted[left]);
        lemma_next_exists(draw.exhausted, draw.segment, from);
        assert(draw.turned().reads[left].len() != 0);
    }
}

/// A toss keeps a selection sound and keeps the points together: what leaves a
/// segment is selected. It takes points from the end of what was read.
pub proof fn law_toss(draw: DrawView, heads: bool)
    requires
        draw.wf(),
        !draw.finished(),
    ensures
        draw.tossed(heads).wf(),
        draw.tossed(heads).limit == draw.limit,
        draw.tossed(heads).reads.len() == draw.reads.len(),
        draw.tossed(heads).all_points() == draw.all_points(),
        forall|i: int|
            0 <= i < draw.reads.len() ==> (#[trigger] draw.tossed(heads).reads[i]).is_prefix_of(
                draw.reads[i],
            ),
{
    broadcast use vstd::seq_lib::group_to_multiset_ensures;

    let drawn = if heads {
        draw.heads()
    } else {
        draw
    };
    let segment = draw.segment;
    assert forall|i: int|
        0 <= i < drawn.reads.len() && #[trigger] drawn.exhausted[i] implies drawn.reads[i].len()
        == 0 by {
        assert(i != segment ==> drawn.exhausted[i] == draw.exhausted[i]);
    }
    lemma_turned(drawn);
    if heads && draw.reads[segment].len() > 0 {
        lemma_take_last(draw.reads, segment);
        assert(drawn.all_points() =~= draw.all_points());
    }
    assert forall|i: int| 0 <= i < draw.reads.len() implies (
    #[trigger] draw.tossed(heads).reads[i]).is_prefix_of(draw.reads[i]) by {
        if heads && i == segment && draw.reads[i].len() > 0 {
            assert(drawn.reads[i] == draw.reads[i].drop_last());
        }
    }
}

/// Heads brings a selection nearer to its end: a point leaves a segment, or a
/// segment is found to be exhausted. Tails leaves as much to do as before.
pub proof fn law_heads_is_progress(draw: DrawView)
    requires
        draw.wf(),
        !draw.finished(),
    ensures
        draw.tossed(true).work_left() + 1 == draw.work_left(),
        draw.tossed(false).work_left() == draw.work_left(),
{
    if draw.reads[draw.segment].len() > 0 {
        lemma_take_last(draw.reads, draw.segment);
    } else {
        lemma_open_segments(draw.exhausted, draw.segment);
    }
}

/// A selection that is not at its end has a segment that is not exhausted, has
/// points left and has a weight above zero, if every segment of whose points
/// some are left has points.
pub proof fn law_some_segment_has_weight(draw: DrawView)
    requires
        draw.wf(),
        !draw.finished(),
        draw.has_what_is_left(),
    ensures
        0 <= draw.segment_with_points() < draw.reads.len(),
        !draw.exhausted[draw.segment_with_points()],
        draw.reads[draw.segment_with_points()].len() > 0,
        draw.available[draw.segment_with_points()] > 0,
{
    let left = choose|i: int| 0 <= i < draw.reads.len() && (#[trigger] draw.reads[i]).len() != 0;
    assert(draw.reads[left].len() > 0);
    let target = draw.segment_with_points();
    assert(draw.reads[target].len() > 0);
}

/// After tails it is less far to a segment of whose points some are left.
proof fn lemma_tails_comes_nearer(draw: DrawView)
    requires
        draw.wf(),
        !draw.finished(),
        draw.has_what_is_left(),
        draw.segment != draw.segment_with_points(),
    ensures
        0 <= draw.tossed(false).way_to_points() < draw.way_to_points(),
{
    law_some_segment_has_weight(draw);
    law_toss(draw, false);
    lemma_turned(draw);
    let after = draw.tossed(false);
    assert(after.reads == draw.reads);
    assert(after.segment_with_points() == draw.segment_with_points());
    assert(is_next(draw.exhausted, draw.segment, after.segment));
}

/// From where some coins have brought it, a selection can be brought to its
/// end.
proof fn lemma_can_end(draw: DrawView, coins: Seq<bool>)
    requires
        draw.can_fall(coins),
        draw.tossed_all(coins).wf(),
        draw.tossed_all(coins).has_what_is_left(),
    ensures
        exists|all: Seq<bool>|
            draw.can_fall(all) && (#[trigger] draw.tossed_all(all)).finished(),
    decreases draw.tossed_all(coins).work_left(), draw.tossed_all(coins).way_to_points(),
{
    let now = draw.tossed_all(coins);
    if !now.finished() {
        law_some_segment_has_weight(now);
        let heads = now.available[now.segment] > 0;
        let more = coins.push(heads);
        assert(more.drop_last() =~= coins);
        let after = now.tossed(heads);
        assert(draw.tossed_all(more) == after);
        assert(draw.can_fall(more));
        law_toss(now, heads);
        law_heads_is_progress(now);
        assert(after.available == now.available);
        assert forall|i: int| 0 <= i < after.reads.len() && (
        #[trigger] after.reads[i]).len() > 0 implies after.available[i] > 0 by {
            assert(after.reads[i].is_prefix_of(now.reads[i]));
            assert(now.reads[i].len() > 0);
        }
        if !heads {
            lemma_tails_comes_nearer(now);
        }
        lemma_can_end(draw, more);
    }
}

/// A selection can always go on to its end, if every segment of whose points
/// some are left has points.
pub proof fn law_selection_can_end(draw: DrawView)
    requires
        draw.wf(),
        draw.has_what_is_left(),
    ensures
        exists|coins: Seq<bool>|
            draw.can_fall(coins) && (#[trigger] draw.tossed_all(coins)).finished(),
{
    lemma_can_end(draw, Seq::empty());
}

/// The selection at its start is sound.
pub proof fn law_draw_start(reads: Seq<RandomRead>, limit: nat)
    requires
        weighted(reads),
    ensures
        draw_start(reads, limit).wf(),
{
    let draw = draw_start(reads, limit);
    assert forall|i: int| 0 <= i < draw.reads.len() implies #[trigger] draw.available[i]
        <= draw.total by {
        lemma_total_points(reads, i);
    }
    if nothing_read(reads) {
        assert forall|i: int| 0 <= i < draw.reads.len() implies (#[trigger] draw.reads[i]).len()
            == 0 by {
            assert(reads[i].1@.len() == 0);
        }
    }
}

/// However the coins fall: the selected points and those that are left are
/// those that were read, each as often as it was read; from each segment they
/// were taken from the end; and there are at most `limit` of them.
pub proof fn law_selection(reads: Seq<RandomRead>, limit: nat, coins: Seq<bool>)
    requires
        weighted(reads),
    ensures
        ({
            let start = draw_start(reads, limit);
            let draw = start.tossed_all(coins);
            &&& draw.wf()
            &&& draw.limit == limit
            &&& draw.reads.len() == reads.len()
            &&& draw.all_points() == start.reads.flatten().to_multiset()
            &&& forall|i: int|
                0 <= i < reads.len() ==> (#[trigger] draw.reads[i]).is_prefix_of(start.reads[i])
            &&& draw.points.len() <= limit
        }),
    decreases coins.len(),
{
    broadcast use vstd::seq_lib::group_to_multiset_ensures;

    let start = draw_start(reads, limit);
    if coins.len() == 0 {
        law_draw_start(reads, limit);
        assert(start.points.to_multiset() =~= Multiset::empty());
        assert(start.all_points() =~= start.reads.flatten().to_multiset());
    } else {
        law_selection(reads, limit, coins.drop_last());
        let before = start.tossed_all(coins.drop_last());
        if !before.finished() {
            law_toss(before, coins.last());
            let draw = before.tossed(coins.last());
            assert forall|i: int| 0 <= i < reads.len() implies (
            #[trigger] draw.reads[i]).is_prefix_of(start.reads[i]) by {
                assert(before.reads[i].is_prefix_of(start.reads[i]));
            }
        }
    }
}

/// A selection is at its end at once if no points were read or none are wanted.
pub proof fn law_nothing_to_select(reads: Seq<RandomRead>, limit: nat)
    requires
        nothing_read(reads) || limit == 0,
    ensures
        draw_start(reads, limit).finished(),
        draw_start(reads, limit).points == Seq::<ExtendedPointId>::empty(),
{
    let draw = draw_start(reads, limit);
    if nothing_read(reads) {
        assert forall|i: int| 0 <= i < draw.reads.len() implies (#[trigger] draw.reads[i]).len()
            == 0 by {
            assert(reads[i].1@.len() == 0);
        }
    }
}

/// A selection that is at its end has `limit` points, or every point that was
/// read if those are fewer.
pub proof fn law_finished_selection(reads: Seq<RandomRead>, limit: nat, coins: Seq<bool>)
    requires
        weighted(reads),
        draw_start(reads, limit).tossed_all(coins).finished(),
    ensures
        ({
            let all = draw_start(reads, limit).reads.flatten();
            let points = draw_start(reads, limit).tossed_all(coins).points;
            &&& all.len() >= limit ==> points.len() == limit
            &&& all.len() <= limit ==> points.to_multiset() == all.to_multiset()
        }),
{
    broadcast use vstd::seq_lib::group_to_multiset_ensures;

    law_selection(reads, limit, coins);
    let start = draw_start(reads, limit);
    let draw = start.tossed_all(coins);
    assert(draw.all_points().len() == draw.points.len() + draw.reads.flatten().len());
    if draw.nothing_left() {
        lemma_flatten_empty(draw.reads);
        assert(draw.reads.flatten().to_multiset() =~= Multiset::empty());
        assert(draw.all_points() =~= draw.points.to_multiset());
    } else if start.reads.flatten().len() <= limit {
        assert(draw.reads.flatten() =~= Seq::empty());
        assert(draw.reads.flatten().to_multiset() =~= Multiset::empty());
        assert(draw.all_points() =~= draw.points.to_multiset());
    }
}

/// Empty sequences joined are an empty sequence.
proof fn lemma_flatten_empty(sequences: Seq<Seq<ExtendedPointId>>)
    requires
        forall|i: int| 0 <= i < sequences.len() ==> (#[trigger] sequences[i]).len() == 0,
    ensures
        sequences.flatten() == Seq::<ExtendedPointId>::empty(),
    decreases sequences.len(),
{
    if sequences.len() > 0 {
        let rest = sequences.drop_first();
        assert forall|i: int| 0 <= i < rest.len() implies (#[trigger] rest[i]).len() == 0 by {
            assert(rest[i] == sequences[i + 1]);
        }
        lemma_flatten_empty(rest);
        assert(sequences.first() =~= Seq::empty());
    }
    assert(sequences.flatten() =~= Seq::empty());
}

} // verus!
