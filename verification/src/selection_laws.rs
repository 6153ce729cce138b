//! What the steps of a random selection do.
use crate::point::ExtendedPointId;
use crate::random::{count_points, is_weighted, RandomDraw, RandomRead};
use crate::shard_laws::{coin_fell, is_over, lemma_coin_fell, lemma_total_is_sum};
use crate::terms::{next_open, sum_of};
use vstd::prelude::*;

verus! {

/// The points of segments are counted by adding them up, if the sum fits.
pub proof fn law_points_are_added_up(reads: &Vec<RandomRead>, total: Option<usize>)
    requires
        call_ensures(count_points, (reads,), total),
    ensures
        total is Some <==> sum_of(reads@.map_values(|read: RandomRead| read.0)) <= usize::MAX,
        total is Some ==> total->Some_0 == sum_of(reads@.map_values(|read: RandomRead| read.0)),
{
    lemma_total_is_sum(reads@);
}

/// Reads have weights if the sizes of their segments add up to a number that
/// fits, and which is not zero if any point was read.
pub proof fn law_reads_with_weights(reads: &Vec<RandomRead>, has_weights: bool)
    requires
        call_ensures(is_weighted, (reads,), has_weights),
    ensures
        has_weights <==> {
            let sum = sum_of(reads@.map_values(|read: RandomRead| read.0));
            sum <= usize::MAX && (sum > 0 || forall|i: int|
                0 <= i < reads@.len() ==> (#[trigger] reads@[i]).1@.len() == 0)
        },
{
    lemma_total_is_sum(reads@);
}

/// A selection begins with the first segment and without points; each segment
/// has its points and its size, and none is closed.
pub proof fn law_selection_begins(reads: Vec<RandomRead>, limit: usize, draw: RandomDraw)
    requires
        call_ensures(RandomDraw::new, (reads, limit), draw),
    ensures
        draw@.limit == limit,
        draw@.points.len() == 0,
        draw@.segment == 0,
        draw@.total == sum_of(reads@.map_values(|read: RandomRead| read.0)),
        draw@.reads.len() == reads@.len(),
        draw@.available.len() == reads@.len(),
        draw@.exhausted.len() == reads@.len(),
        forall|i: int|
            0 <= i < reads@.len() ==> draw@.reads[i] == (#[trigger] reads@[i]).1@
                && draw@.available[i] == reads@[i].0 && !draw@.exhausted[i],
{
    lemma_total_is_sum(reads@);
}

/// A selection is at its end when it has as many points as it may, or when no
/// segment has a point left.
pub proof fn law_selection_ends(draw: &RandomDraw, finished: bool)
    requires
        call_ensures(RandomDraw::is_finished, (draw,), finished),
    ensures
        finished == is_over(draw@),
{
}

/// The weight of a segment is its size, of the size of all.
pub proof fn law_weight_is_size(draw: &RandomDraw, weight: (usize, usize))
    requires
        call_ensures(RandomDraw::weight, (draw,), weight),
    ensures
        weight.0 == draw@.available[draw@.segment],
        weight.1 == draw@.total,
{
}

/// The first coin of a selection falls by the size of the first segment.
pub proof fn law_first_weight(
    reads: Vec<RandomRead>,
    limit: usize,
    draw: RandomDraw,
    weight: (usize, usize),
)
    requires
        call_ensures(RandomDraw::new, (reads, limit), draw),
        call_ensures(RandomDraw::weight, (&draw,), weight),
        reads@.len() > 0,
    ensures
        weight.0 == reads@[0].0,
        weight.1 == sum_of(reads@.map_values(|read: RandomRead| read.0)),
{
    law_selection_begins(reads, limit, draw);
    law_weight_is_size(&draw, weight);
    assert(draw@.available[0] == reads@[0].0);
}

/// The points of a selection are those that were selected, in the order in
/// which they were.
pub proof fn law_selected_points(draw: RandomDraw, points: Vec<ExtendedPointId>)
    requires
        call_ensures(RandomDraw::into_points, (draw,), points),
    ensures
        points@ == draw@.points,
{
}

/// After a coin the next segment, going round, that is not closed comes next.
/// On heads the last point that is left of the segment is selected, or, if none
/// is, the segment is closed; on tails nothing changes.
pub proof fn law_coin_moves_one_point(draw: &mut RandomDraw, heads: bool)
    requires
        call_ensures(RandomDraw::toss, (draw, heads), ()),
        old(draw)@.wf(),
        !is_over(old(draw)@),
    ensures
        coin_fell(old(draw)@, heads, final(draw)@),
        !is_over(final(draw)@) ==> next_open(
            final(draw)@.exhausted,
            old(draw)@.segment,
            final(draw)@.segment,
        ),
{
    lemma_coin_fell(old(draw)@, heads);
}

/// Points can be selected from any reads with weights, and a coin can be tossed
/// until the selection is at its end.
pub proof fn law_selection_takes_any_reads(
    reads: Vec<RandomRead>,
    limit: usize,
    draw: RandomDraw,
    tossed: &mut RandomDraw,
    heads: bool,
)
    requires
        ({
            let sum = sum_of(reads@.map_values(|read: RandomRead| read.0));
            sum <= usize::MAX && (sum > 0 || forall|i: int|
                0 <= i < reads@.len() ==> (#[trigger] reads@[i]).1@.len() == 0)
        }),
    ensures
        call_requires(RandomDraw::new, (reads, limit)),
        call_ensures(RandomDraw::new, (reads, limit), draw) ==> draw@.wf(),
        draw@.wf() && !is_over(draw@) ==> call_requires(RandomDraw::weight, (&draw,)),
        old(tossed)@.wf() && !is_over(old(tossed)@) ==> call_requires(
            RandomDraw::toss,
            (tossed, heads),
        ),
        call_ensures(RandomDraw::toss, (tossed, heads), ()) ==> final(tossed)@.wf(),
{
    lemma_total_is_sum(reads@);
}

} // verus!
