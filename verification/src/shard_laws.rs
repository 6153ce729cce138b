//! What a shard asks of its segments, and what it makes of the answers.
use crate::draw_laws::{law_toss, lemma_turned};
use crate::error::{CollectionError, CollectionResult};
use crate::order::{
    elements_of, item_order, merge_ordered, merge_point_ids, page_of_ids, page_of_items, Item,
};
use crate::page_laws::{law_page_of_ids, law_page_of_items};
use crate::point::{ExtendedPointId, OrderValue, Record, RecordView, ScoredPoint};
use crate::random::{draw_start, total_points, DrawView, RandomRead};
use crate::records::{found_records, lemma_found_records, RecordMap};
use crate::scroll::{
    batch_result, first_error, items_read, query_points, reads_in_order, Arrangement, Event,
    LocalShard, OrderBy, Page, QueryScrollRequestInternal, Scroll, ScrollOrder,
};
use crate::terms::{
    comes_before, id_before, in_turn, lemma_picks_one_more, lemma_sum_push, next_open, picks, sum_of,
    was_read,
};
use crate::views::seq_view;
use vstd::prelude::*;
use vstd::relations::sorted_by;

verus! {

/// A scroll by id first asks the non-appendable segments for ids, by the
/// offset, the limit, the filter and the parts of points that it was started
/// with. The appendable segments come after that.
pub proof fn law_scroll_by_id_starts<'a, F, P, W>(
    shard: &LocalShard,
    offset: Option<ExtendedPointId>,
    limit: usize,
    with_payload: &'a P,
    with_vector: &'a W,
    filter: Option<&'a F>,
    start: Scroll<'a, F, P, W>,
)
    requires
        call_ensures(
            LocalShard::scroll_by_id::<F, P, W>,
            (shard, offset, limit, with_payload, with_vector, filter),
            start,
        ),
    ensures
        start is ReadIds,
        start->ReadIds_selection.filter == filter,
        start->ReadIds_selection.with_payload == with_payload,
        start->ReadIds_selection.with_vector == with_vector,
        start->ReadIds_offset == offset,
        start->ReadIds_limit == limit,
        start->ReadIds_segments@ == shard.non_appendable@,
        start->ReadIds_rest is Some,
        start->ReadIds_rest->Some_0@ == shard.appendable@,
        start->ReadIds_reads@.len() == 0,
{
}

/// A scroll by field first asks the non-appendable segments for items, by the
/// field, the limit, the filter and the parts of points that it was started
/// with. The appendable segments come after that.
pub proof fn law_scroll_by_field_starts<'a, F, P, W>(
    shard: &LocalShard,
    limit: usize,
    with_payload: &'a P,
    with_vector: &'a W,
    filter: Option<&'a F>,
    order_by: &'a OrderBy,
    start: Scroll<'a, F, P, W>,
)
    requires
        call_ensures(
            LocalShard::scroll_by_field::<F, P, W>,
            (shard, limit, with_payload, with_vector, filter, order_by),
            start,
        ),
    ensures
        start is ReadItems,
        start->ReadItems_selection.filter == filter,
        start->ReadItems_selection.with_payload == with_payload,
        start->ReadItems_selection.with_vector == with_vector,
        start->ReadItems_order_by == order_by,
        start->ReadItems_limit == limit,
        start->ReadItems_segments@ == shard.non_appendable@,
        start->ReadItems_rest is Some,
        start->ReadItems_rest->Some_0@ == shard.appendable@,
        start->ReadItems_results@.len() == 0,
{
}

/// A random scroll asks all segments for random points, non-appendable ones
/// first, by the limit, the filter and the parts of points that it was started
/// with.
pub proof fn law_scroll_randomly_starts<'a, F, P, W>(
    shard: &LocalShard,
    limit: usize,
    with_payload: &'a P,
    with_vector: &'a W,
    filter: Option<&'a F>,
    start: Scroll<'a, F, P, W>,
)
    requires
        call_ensures(
            LocalShard::scroll_randomly::<F, P, W>,
            (shard, limit, with_payload, with_vector, filter),
            start,
        ),
    ensures
        start is ReadRandom,
        start->ReadRandom_selection.filter == filter,
        start->ReadRandom_selection.with_payload == with_payload,
        start->ReadRandom_selection.with_vector == with_vector,
        start->ReadRandom_limit == limit,
        start->ReadRandom_segments@ == shard.non_appendable@ + shard.appendable@,
{
}

/// When the ids of the non-appendable segments have come, a scroll by id asks
/// the appendable ones in the same way, and keeps what has come.
pub proof fn law_scroll_by_id_goes_on<'a, F, P, W>(
    scroll: Scroll<'a, F, P, W>,
    more: Vec<Vec<ExtendedPointId>>,
    after: Scroll<'a, F, P, W>,
)
    requires
        call_ensures(Scroll::<'a, F, P, W>::resume, (scroll, Event::Ids(Ok(more))), after),
        scroll is ReadIds,
        scroll->ReadIds_rest is Some,
    ensures
        after is ReadIds,
        after->ReadIds_selection.filter == scroll->ReadIds_selection.filter,
        after->ReadIds_selection.with_payload == scroll->ReadIds_selection.with_payload,
        after->ReadIds_selection.with_vector == scroll->ReadIds_selection.with_vector,
        after->ReadIds_offset == scroll->ReadIds_offset,
        after->ReadIds_limit == scroll->ReadIds_limit,
        after->ReadIds_segments@ == scroll->ReadIds_rest->Some_0@,
        after->ReadIds_rest is None,
        after->ReadIds_reads@ == scroll->ReadIds_reads@ + more@,
{
}

/// When the items of the non-appendable segments have come, a scroll by field
/// asks the appendable ones in the same way, and keeps what has come.
pub proof fn law_scroll_by_field_goes_on<'a, F, P, W>(
    scroll: Scroll<'a, F, P, W>,
    more: Vec<CollectionResult<Vec<Item>>>,
    after: Scroll<'a, F, P, W>,
)
    requires
        call_ensures(Scroll::<'a, F, P, W>::resume, (scroll, Event::Items(Ok(more))), after),
        scroll is ReadItems,
        scroll->ReadItems_rest is Some,
    ensures
        after is ReadItems,
        after->ReadItems_selection.filter == scroll->ReadItems_selection.filter,
        after->ReadItems_selection.with_payload == scroll->ReadItems_selection.with_payload,
        after->ReadItems_selection.with_vector == scroll->ReadItems_selection.with_vector,
        after->ReadItems_order_by == scroll->ReadItems_order_by,
        after->ReadItems_limit == scroll->ReadItems_limit,
        after->ReadItems_segments@ == scroll->ReadItems_rest->Some_0@,
        after->ReadItems_rest is None,
        after->ReadItems_results@ == scroll->ReadItems_results@ + more@,
{
}

/// A query asks the segments with the filter, the limit and the parts of points
/// of its request, whatever its order: by id from the first point on, by the
/// field of the request, or at random.
pub proof fn law_query_asks_for_its_request<'a, F, P, W>(
    shard: &LocalShard,
    request: &'a QueryScrollRequestInternal<F, P, W>,
    start: Scroll<'a, F, P, W>,
)
    requires
        call_ensures(LocalShard::query_scroll::<F, P, W>, (shard, request), start),
    ensures
        request.scroll_order is ById ==> {
            &&& start is ReadIds
            &&& start->ReadIds_selection.filter is Some == request.filter is Some
            &&& request.filter is Some ==> *start->ReadIds_selection.filter->Some_0
                == request.filter->Some_0
            &&& *start->ReadIds_selection.with_payload == request.with_payload
            &&& *start->ReadIds_selection.with_vector == request.with_vector
            &&& start->ReadIds_limit == request.limit
            &&& start->ReadIds_offset is None
            &&& start->ReadIds_segments@ == shard.non_appendable@
            &&& start->ReadIds_rest is Some
            &&& start->ReadIds_rest->Some_0@ == shard.appendable@
            &&& start->ReadIds_reads@.len() == 0
        },
        request.scroll_order matches ScrollOrder::ByField(order_by) ==> {
            &&& start is ReadItems
            &&& start->ReadItems_selection.filter is Some == request.filter is Some
            &&& request.filter is Some ==> *start->ReadItems_selection.filter->Some_0
                == request.filter->Some_0
            &&& *start->ReadItems_selection.with_payload == request.with_payload
            &&& *start->ReadItems_selection.with_vector == request.with_vector
            &&& start->ReadItems_limit == request.limit
            &&& *start->ReadItems_order_by == order_by
            &&& start->ReadItems_segments@ == shard.non_appendable@
            &&& start->ReadItems_rest is Some
            &&& start->ReadItems_rest->Some_0@ == shard.appendable@
            &&& start->ReadItems_results@.len() == 0
        },
        request.scroll_order is Random ==> {
            &&& start is ReadRandom
            &&& start->ReadRandom_selection.filter is Some == request.filter is Some
            &&& request.filter is Some ==> *start->ReadRandom_selection.filter->Some_0
                == request.filter->Some_0
            &&& *start->ReadRandom_selection.with_payload == request.with_payload
            &&& *start->ReadRandom_selection.with_vector == request.with_vector
            &&& start->ReadRandom_limit == request.limit
            &&& start->ReadRandom_segments@ == shard.non_appendable@ + shard.appendable@
        },
{
}

/// A batch starts for each request, in its place, the scroll that a query of
/// that request alone would start.
pub proof fn law_batch_asks_for_each_request<'a, F, P, W>(
    shard: &LocalShard,
    batch: &'a Vec<QueryScrollRequestInternal<F, P, W>>,
    starts: Vec<Scroll<'a, F, P, W>>,
    i: int,
)
    requires
        call_ensures(LocalShard::query_scroll_batch::<F, P, W>, (shard, batch), starts),
    ensures
        starts@.len() == batch@.len(),
        0 <= i < batch@.len() && batch@[i].scroll_order is ById ==> {
            &&& starts@[i] is ReadIds
            &&& starts@[i]->ReadIds_selection.filter is Some == batch@[i].filter is Some
            &&& batch@[i].filter is Some ==> *starts@[i]->ReadIds_selection.filter->Some_0
                == batch@[i].filter->Some_0
            &&& *starts@[i]->ReadIds_selection.with_payload == batch@[i].with_payload
            &&& *starts@[i]->ReadIds_selection.with_vector == batch@[i].with_vector
            &&& starts@[i]->ReadIds_limit == batch@[i].limit
            &&& starts@[i]->ReadIds_offset is None
            &&& starts@[i]->ReadIds_segments@ == shard.non_appendable@
            &&& starts@[i]->ReadIds_rest is Some
            &&& starts@[i]->ReadIds_rest->Some_0@ == shard.appendable@
            &&& starts@[i]->ReadIds_reads@.len() == 0
        },
        0 <= i < batch@.len() ==> (batch@[i].scroll_order matches ScrollOrder::ByField(order_by)
            ==> {
            &&& starts@[i] is ReadItems
            &&& starts@[i]->ReadItems_selection.filter is Some == batch@[i].filter is Some
            &&& batch@[i].filter is Some ==> *starts@[i]->ReadItems_selection.filter->Some_0
                == batch@[i].filter->Some_0
            &&& *starts@[i]->ReadItems_selection.with_payload == batch@[i].with_payload
            &&& *starts@[i]->ReadItems_selection.with_vector == batch@[i].with_vector
            &&& starts@[i]->ReadItems_limit == batch@[i].limit
            &&& *starts@[i]->ReadItems_order_by == order_by
            &&& starts@[i]->ReadItems_segments@ == shard.non_appendable@
            &&& starts@[i]->ReadItems_rest is Some
            &&& starts@[i]->ReadItems_rest->Some_0@ == shard.appendable@
            &&& starts@[i]->ReadItems_results@.len() == 0
        }),
        0 <= i < batch@.len() && batch@[i].scroll_order is Random ==> {
            &&& starts@[i] is ReadRandom
            &&& starts@[i]->ReadRandom_selection.filter is Some == batch@[i].filter is Some
            &&& batch@[i].filter is Some ==> *starts@[i]->ReadRandom_selection.filter->Some_0
                == batch@[i].filter->Some_0
            &&& *starts@[i]->ReadRandom_selection.with_payload == batch@[i].with_payload
            &&& *starts@[i]->ReadRandom_selection.with_vector == batch@[i].with_vector
            &&& starts@[i]->ReadRandom_limit == batch@[i].limit
            &&& starts@[i]->ReadRandom_segments@ == shard.non_appendable@ + shard.appendable@
        },
{
    if 0 <= i < batch@.len() {
        assert(starts@[i].wf());
    }
}

/// The point that a query makes of a record has the id, the payload, the vector
/// and the shard key of that record.
pub open spec fn has_parts_of(point: ScoredPoint, record: Record) -> bool {
    &&& point.id == record.id
    &&& point.payload is Some == record.payload is Some
    &&& point.payload is Some ==> point.payload->Some_0@ == record.payload->Some_0@
    &&& point.vector is Some == record.vector is Some
    &&& point.vector is Some ==> point.vector->Some_0@ == record.vector->Some_0@
    &&& point.shard_key is Some == record.shard_key is Some
    &&& point.shard_key is Some ==> point.shard_key->Some_0@ == record.shard_key->Some_0@
}

/// A query gives a point for each record of its page, in the place of the
/// record and with its id, payload, vector and shard key; version and score are
/// zero. Only on a page that is ordered by a field have the points order
/// values: those of the page, in pairs with the records as far as both go. A
/// scroll that failed gives its error.
pub proof fn law_query_gives_the_records(
    done: CollectionResult<Page>,
    points: CollectionResult<Vec<ScoredPoint>>,
)
    requires
        call_ensures(query_points, (done,), points),
    ensures
        done matches Ok(Page::Records(records)) ==> {
            &&& points is Ok
            &&& points->Ok_0@.len() == records@.len()
            &&& forall|i: int|
                0 <= i < records@.len() ==> has_parts_of(#[trigger] points->Ok_0@[i], records@[i])
                    && points->Ok_0@[i].version == 0 && points->Ok_0@[i].score_bits == 0
                    && points->Ok_0@[i].order_value is None
        },
        done matches Ok(Page::Ordered(records, values)) ==> {
            &&& points is Ok
            &&& points->Ok_0@.len() <= records@.len()
            &&& points->Ok_0@.len() <= values@.len()
            &&& points->Ok_0@.len() == records@.len() || points->Ok_0@.len() == values@.len()
            &&& forall|i: int|
                0 <= i < points->Ok_0@.len() ==> has_parts_of(
                    #[trigger] points->Ok_0@[i],
                    records@[i],
                ) && points->Ok_0@[i].version == 0 && points->Ok_0@[i].score_bits == 0
                    && points->Ok_0@[i].order_value == Some(values@[i])
        },
        done matches Err(error) ==> points == Err::<Vec<ScoredPoint>, CollectionError>(error),
{
    if let Ok(page) = done {
        let found = seq_view(points->Ok_0@);
        assert(found.len() == points->Ok_0@.len());
        match page {
            Page::Records(records) => {
                assert forall|i: int| 0 <= i < records@.len() implies has_parts_of(
                    #[trigger] points->Ok_0@[i],
                    records@[i],
                ) && points->Ok_0@[i].version == 0 && points->Ok_0@[i].score_bits == 0
                    && points->Ok_0@[i].order_value is None by {
                    assert(found[i] == points->Ok_0@[i]@);
                    assert(seq_view(records@)[i] == records@[i]@);
                }
            },
            Page::Ordered(records, values) => {
                assert forall|i: int| 0 <= i < points->Ok_0@.len() implies has_parts_of(
                    #[trigger] points->Ok_0@[i],
                    records@[i],
                ) && points->Ok_0@[i].version == 0 && points->Ok_0@[i].score_bits == 0
                    && points->Ok_0@[i].order_value == Some(values@[i]) by {
                    assert(found[i] == points->Ok_0@[i]@);
                }
            },
        }
    }
}

/// In a scroll by id, both times that segments are asked for ids, the
/// non-appendable ones first and then the appendable ones, they are asked from
/// the offset on that the scroll was started with, and by its limit and its
/// filter.
pub proof fn law_scroll_by_id_asks_alike<'a, F, P, W>(
    shard: &LocalShard,
    offset: Option<ExtendedPointId>,
    limit: usize,
    with_payload: &'a P,
    with_vector: &'a W,
    filter: Option<&'a F>,
    start: Scroll<'a, F, P, W>,
    non_appendable: Vec<Vec<ExtendedPointId>>,
    middle: Scroll<'a, F, P, W>,
)
    requires
        call_ensures(
            LocalShard::scroll_by_id::<F, P, W>,
            (shard, offset, limit, with_payload, with_vector, filter),
            start,
        ),
        call_ensures(Scroll::<'a, F, P, W>::resume, (start, Event::Ids(Ok(non_appendable))), middle),
    ensures
        start is ReadIds,
        start->ReadIds_offset == offset,
        start->ReadIds_limit == limit,
        start->ReadIds_selection.filter == filter,
        start->ReadIds_segments@ == shard.non_appendable@,
        middle is ReadIds,
        middle->ReadIds_offset == offset,
        middle->ReadIds_limit == limit,
        middle->ReadIds_selection.filter == filter,
        middle->ReadIds_selection.with_payload == with_payload,
        middle->ReadIds_selection.with_vector == with_vector,
        middle->ReadIds_segments@ == shard.appendable@,
        middle->ReadIds_rest is None,
        middle->ReadIds_reads@ == non_appendable@,
{
    law_scroll_by_id_starts(shard, offset, limit, with_payload, with_vector, filter, start);
    law_scroll_by_id_goes_on(start, non_appendable, middle);
    assert(start->ReadIds_reads@ + non_appendable@ =~= non_appendable@);
}

/// In a scroll by field, both times that segments are asked for items, the
/// non-appendable ones first and then the appendable ones, they are asked by
/// the field, the limit and the filter that the scroll was started with.
pub proof fn law_scroll_by_field_asks_alike<'a, F, P, W>(
    shard: &LocalShard,
    limit: usize,
    with_payload: &'a P,
    with_vector: &'a W,
    filter: Option<&'a F>,
    order_by: &'a OrderBy,
    start: Scroll<'a, F, P, W>,
    non_appendable: Vec<CollectionResult<Vec<Item>>>,
    middle: Scroll<'a, F, P, W>,
)
    requires
        call_ensures(
            LocalShard::scroll_by_field::<F, P, W>,
            (shard, limit, with_payload, with_vector, filter, order_by),
            start,
        ),
        call_ensures(
            Scroll::<'a, F, P, W>::resume,
            (start, Event::Items(Ok(non_appendable))),
            middle,
        ),
    ensures
        start is ReadItems,
        start->ReadItems_order_by == order_by,
        start->ReadItems_limit == limit,
        start->ReadItems_selection.filter == filter,
        start->ReadItems_segments@ == shard.non_appendable@,
        middle is ReadItems,
        middle->ReadItems_order_by == order_by,
        middle->ReadItems_limit == limit,
        middle->ReadItems_selection.filter == filter,
        middle->ReadItems_selection.with_payload == with_payload,
        middle->ReadItems_selection.with_vector == with_vector,
        middle->ReadItems_segments@ == shard.appendable@,
        middle->ReadItems_rest is None,
        middle->ReadItems_results@ == non_appendable@,
{
    law_scroll_by_field_starts(shard, limit, with_payload, with_vector, filter, order_by, start);
    law_scroll_by_field_goes_on(start, non_appendable, middle);
    assert(start->ReadItems_results@ + non_appendable@ =~= non_appendable@);
}

/// When the last ids have come, a scroll by id asks for the records of ids that
/// were read: at most `limit`, in ascending order, none twice. An id that was
/// read and is not among them comes after them all, and there is none such
/// unless they are `limit`.
pub proof fn law_scroll_by_id_picks_the_first_ids<'a, F, P, W>(
    scroll: Scroll<'a, F, P, W>,
    more: Vec<Vec<ExtendedPointId>>,
    after: Scroll<'a, F, P, W>,
)
    requires
        call_ensures(Scroll::<'a, F, P, W>::resume, (scroll, Event::Ids(Ok(more))), after),
        scroll is ReadIds,
        scroll->ReadIds_rest is None,
    ensures
        after is Retrieve,
        after->Retrieve_arrangement is Ids,
        after->Retrieve_selection.filter == scroll->ReadIds_selection.filter,
        after->Retrieve_selection.with_payload == scroll->ReadIds_selection.with_payload,
        after->Retrieve_selection.with_vector == scroll->ReadIds_selection.with_vector,
        ({
            let reads = scroll->ReadIds_reads@ + more@;
            let ids = after->Retrieve_ids@;
            &&& ids.len() <= scroll->ReadIds_limit
            &&& forall|i: int, j: int|
                0 <= i < j < ids.len() ==> id_before(#[trigger] ids[i], #[trigger] ids[j])
            &&& forall|i: int| 0 <= i < ids.len() ==> was_read(reads, #[trigger] ids[i])
            &&& forall|id: ExtendedPointId|
                #[trigger] was_read(reads, id) && !ids.contains(id) ==> ids.len()
                    == scroll->ReadIds_limit && forall|i: int|
                    0 <= i < ids.len() ==> id_before(#[trigger] ids[i], id)
        }),
{
    let reads = scroll->ReadIds_reads@ + more@;
    let views = seq_view(reads);
    let ids = after->Retrieve_ids@;
    law_page_of_ids(views, scroll->ReadIds_limit as nat);
    assert(ids == page_of_ids(views, scroll->ReadIds_limit as nat));
    assert forall|i: int, j: int| 0 <= i < j < ids.len() implies id_before(
        #[trigger] ids[i],
        #[trigger] ids[j],
    ) by {
        assert(crate::order::id_order()(ids[i], ids[j]));
    }
    assert forall|i: int| 0 <= i < ids.len() implies was_read(reads, #[trigger] ids[i]) by {
        assert(elements_of(views).contains(ids[i]));
        let r = choose|r: int| 0 <= r < views.len() && (#[trigger] views[r]).contains(ids[i]);
        assert(reads[r]@.contains(ids[i]));
    }
    assert forall|id: ExtendedPointId| #[trigger]
        was_read(reads, id) && !ids.contains(id) implies ids.len() == scroll->ReadIds_limit && forall|
        i: int,
    | 0 <= i < ids.len() ==> id_before(#[trigger] ids[i], id) by {
        let r = choose|r: int| 0 <= r < reads.len() && (#[trigger] reads[r])@.contains(id);
        assert(views[r].contains(id));
        assert(elements_of(views).contains(id));
        assert forall|i: int| 0 <= i < ids.len() implies id_before(#[trigger] ids[i], id) by {
            assert(crate::order::id_le(ids[i], id));
            assert(ids.contains(ids[i]));
        }
    }
}

/// If the segments give only ids from the offset on that they are asked for, no
/// id on the page comes before the offset that the scroll was started with.
pub proof fn law_page_by_id_starts_at_its_offset<'a, F, P, W>(
    shard: &LocalShard,
    offset: ExtendedPointId,
    limit: usize,
    with_payload: &'a P,
    with_vector: &'a W,
    filter: Option<&'a F>,
    start: Scroll<'a, F, P, W>,
    non_appendable: Vec<Vec<ExtendedPointId>>,
    middle: Scroll<'a, F, P, W>,
    appendable: Vec<Vec<ExtendedPointId>>,
    last: Scroll<'a, F, P, W>,
)
    requires
        call_ensures(
            LocalShard::scroll_by_id::<F, P, W>,
            (shard, Some(offset), limit, with_payload, with_vector, filter),
            start,
        ),
        call_ensures(Scroll::<'a, F, P, W>::resume, (start, Event::Ids(Ok(non_appendable))), middle),
        call_ensures(Scroll::<'a, F, P, W>::resume, (middle, Event::Ids(Ok(appendable))), last),
        forall|r: int, id: ExtendedPointId|
            0 <= r < non_appendable@.len() && #[trigger] non_appendable@[r]@.contains(id)
                ==> start->ReadIds_offset is Some && !id_before(
                id,
                start->ReadIds_offset->Some_0,
            ),
        forall|r: int, id: ExtendedPointId|
            0 <= r < appendable@.len() && #[trigger] appendable@[r]@.contains(id)
                ==> middle->ReadIds_offset is Some && !id_before(
                id,
                middle->ReadIds_offset->Some_0,
            ),
    ensures
        last is Retrieve,
        last->Retrieve_ids@.len() <= limit,
        last->Retrieve_selection.filter == filter,
        last->Retrieve_selection.with_payload == with_payload,
        last->Retrieve_selection.with_vector == with_vector,
        forall|i: int|
            0 <= i < last->Retrieve_ids@.len() ==> !id_before(
                #[trigger] last->Retrieve_ids@[i],
                offset,
            ),
{
    law_scroll_by_id_asks_alike(
        shard,
        Some(offset),
        limit,
        with_payload,
        with_vector,
        filter,
        start,
        non_appendable,
        middle,
    );
    law_scroll_by_id_picks_the_first_ids(middle, appendable, last);
    let reads = middle->ReadIds_reads@ + appendable@;
    let ids = last->Retrieve_ids@;
    assert forall|i: int| 0 <= i < ids.len() implies !id_before(#[trigger] ids[i], offset) by {
        let r = choose|r: int| 0 <= r < reads.len() && (#[trigger] reads[r])@.contains(ids[i]);
        if r < non_appendable@.len() {
            assert(non_appendable@[r]@.contains(ids[i]));
        } else {
            assert(appendable@[r - non_appendable@.len()]@.contains(ids[i]));
        }
    }
}

/// Where no read failed there is no first error; otherwise it is the one that
/// comes first.
proof fn lemma_first_error(reads: Seq<CollectionResult<Vec<Item>>>, n: int)
    requires
        0 <= n <= reads.len(),
        forall|i: int| 0 <= i < n ==> (#[trigger] reads[i]) is Ok,
    ensures
        n == reads.len() ==> first_error(reads) is None,
        n < reads.len() && reads[n] is Err ==> first_error(reads) == Some(reads[n]->Err_0),
    decreases reads.len(),
{
    if reads.len() > 0 && n > 0 {
        let rest = reads.skip(1);
        assert forall|i: int| 0 <= i < n - 1 implies (#[trigger] rest[i]) is Ok by {
            assert(rest[i] == reads[i + 1]);
        }
        assert(reads[0] is Ok);
        lemma_first_error(rest, n - 1);
        if n < reads.len() {
            assert(rest[n - 1] == reads[n]);
        }
    }
}

/// When the last items have come, a scroll by field fails with the error of the
/// first segment whose read failed, if one did.
pub proof fn law_scroll_by_field_fails_with_the_first_error<'a, F, P, W>(
    scroll: Scroll<'a, F, P, W>,
    more: Vec<CollectionResult<Vec<Item>>>,
    after: Scroll<'a, F, P, W>,
    n: int,
)
    requires
        call_ensures(Scroll::<'a, F, P, W>::resume, (scroll, Event::Items(Ok(more))), after),
        scroll is ReadItems,
        scroll->ReadItems_rest is None,
        0 <= n < (scroll->ReadItems_results@ + more@).len(),
        (scroll->ReadItems_results@ + more@)[n] is Err,
        forall|i: int| 0 <= i < n ==> (#[trigger] (scroll->ReadItems_results@ + more@)[i]) is Ok,
    ensures
        after is Done,
        after->Done_0 is Err,
        after->Done_0->Err_0 == (scroll->ReadItems_results@ + more@)[n]->Err_0,
{
    lemma_first_error(scroll->ReadItems_results@ + more@, n);
}

/// When the last items have come and no read failed, a scroll by field asks for
/// the records of items that were read, at most `limit`, each id with its
/// value. All that were read are among them unless they are `limit`. If each
/// read is in the order of the field, so are they, none comes twice, and an
/// item that was read and is not among them comes after them all.
pub proof fn law_scroll_by_field_picks_the_first_items<'a, F, P, W>(
    scroll: Scroll<'a, F, P, W>,
    more: Vec<CollectionResult<Vec<Item>>>,
    after: Scroll<'a, F, P, W>,
)
    requires
        call_ensures(Scroll::<'a, F, P, W>::resume, (scroll, Event::Items(Ok(more))), after),
        scroll is ReadItems,
        scroll->ReadItems_rest is None,
        forall|r: int|
            0 <= r < (scroll->ReadItems_results@ + more@).len() ==> (
            #[trigger] (scroll->ReadItems_results@ + more@)[r]) is Ok,
    ensures
        after is Retrieve,
        after->Retrieve_arrangement is Values,
        after->Retrieve_selection.filter == scroll->ReadItems_selection.filter,
        after->Retrieve_selection.with_payload == scroll->ReadItems_selection.with_payload,
        after->Retrieve_selection.with_vector == scroll->ReadItems_selection.with_vector,
        ({
            let reads = scroll->ReadItems_results@ + more@;
            let direction = scroll->ReadItems_order_by.direction;
            let ids = after->Retrieve_ids@;
            let values = after->Retrieve_arrangement->Values_0@;
            &&& values.len() == ids.len()
            &&& ids.len() <= scroll->ReadItems_limit
            &&& forall|i: int|
                0 <= i < ids.len() ==> exists|r: int|
                    0 <= r < reads.len() && (#[trigger] reads[r])->Ok_0@.contains(
                        (values[i], #[trigger] ids[i]),
                    )
            &&& forall|r: int, item: Item|
                0 <= r < reads.len() && #[trigger] reads[r]->Ok_0@.contains(item) ==> ids.len()
                    == scroll->ReadItems_limit || exists|i: int|
                    0 <= i < ids.len() && #[trigger] ids[i] == item.1 && values[i] == item.0
            &&& (forall|r: int|
                0 <= r < reads.len() ==> in_turn(direction, (#[trigger] reads[r])->Ok_0@)) ==> {
                &&& forall|i: int, j: int|
                    0 <= i < j < ids.len() ==> comes_before(
                        direction,
                        (values[i], #[trigger] ids[i]),
                        (values[j], #[trigger] ids[j]),
                    )
                &&& forall|r: int, item: Item|
                    0 <= r < reads.len() && #[trigger] reads[r]->Ok_0@.contains(item) ==> (exists|
                        i: int,
                    | 0 <= i < ids.len() && #[trigger] ids[i] == item.1 && values[i] == item.0) || (
                    forall|i: int|
                        0 <= i < ids.len() ==> comes_before(
                            direction,
                            (values[i], #[trigger] ids[i]),
                            item,
                        ))
            }
        }),
{
    let reads = scroll->ReadItems_results@ + more@;
    let direction = scroll->ReadItems_order_by.direction;
    let limit = scroll->ReadItems_limit as nat;
    let views = items_read(reads);
    let ids = after->Retrieve_ids@;
    let values = after->Retrieve_arrangement->Values_0@;
    lemma_first_error(reads, reads.len() as int);
    let page = choose|items: Seq<Item>| #[trigger]
        after.retrieves_items(scroll->ReadItems_selection, items) && crate::order::is_read_page(
            items,
            views,
            limit,
        );
    assert forall|i: int| 0 <= i < page.len() implies #[trigger] page[i] == (values[i], ids[i]) by {}
    assert forall|r: int, item: Item|
        0 <= r < reads.len() && #[trigger] reads[r]->Ok_0@.contains(item) implies elements_of(
        views,
    ).contains(item) by {
        assert(views[r].contains(item));
    }
    assert forall|i: int| 0 <= i < ids.len() implies exists|r: int|
        0 <= r < reads.len() && (#[trigger] reads[r])->Ok_0@.contains(
            (values[i], #[trigger] ids[i]),
        ) by {
        assert(elements_of(views).contains(page[i]));
        let r = choose|r: int| 0 <= r < views.len() && (#[trigger] views[r]).contains(page[i]);
        assert(reads[r]->Ok_0@.contains((values[i], ids[i])));
    }
    assert forall|r: int, item: Item|
        0 <= r < reads.len() && #[trigger] reads[r]->Ok_0@.contains(item) implies ids.len() == limit
        || exists|i: int| 0 <= i < ids.len() && #[trigger] ids[i] == item.1 && values[i]
        == item.0 by {
        assert(elements_of(views).contains(item));
        if page.contains(item) {
            let i = choose|i: int| 0 <= i < page.len() && page[i] == item;
            assert(ids[i] == item.1);
        }
    }
    if forall|r: int| 0 <= r < reads.len() ==> in_turn(direction, (#[trigger] reads[r])->Ok_0@) {
        assert forall|r: int| 0 <= r < views.len() implies sorted_by(
            #[trigger] views[r],
            item_order(direction),
        ) by {
            assert(in_turn(direction, reads[r]->Ok_0@));
            let read = reads[r]->Ok_0@;
            assert forall|a: int, b: int| 0 <= a < b < read.len() implies #[trigger] item_order(
                direction,
            )(read[a], read[b]) by {
                assert(!comes_before(direction, read[b], read[a]));
            }
        }
        assert(reads_in_order(views, direction));
        let ordered = page_of_items(views, direction, limit);
        law_page_of_items(views, direction, limit);
        assert forall|i: int| 0 <= i < ordered.len() implies #[trigger] ordered[i] == (
            values[i],
            ids[i],
        ) by {}
        assert forall|i: int, j: int| 0 <= i < j < ids.len() implies comes_before(
            direction,
            (values[i], #[trigger] ids[i]),
            (values[j], #[trigger] ids[j]),
        ) by {
            assert(item_order(direction)(ordered[i], ordered[j]));
        }
        assert forall|r: int, item: Item|
            0 <= r < reads.len() && #[trigger] reads[r]->Ok_0@.contains(item) implies (exists|
            i: int,
        | 0 <= i < ids.len() && #[trigger] ids[i] == item.1 && values[i] == item.0) || (forall|
            i: int,
        |
            0 <= i < ids.len() ==> comes_before(direction, (values[i], #[trigger] ids[i]), item)) by {
            assert(elements_of(views).contains(item));
            if ordered.contains(item) {
                let i = choose|i: int| 0 <= i < ordered.len() && ordered[i] == item;
                assert(ids[i] == item.1);
            } else {
                assert forall|i: int| 0 <= i < ids.len() implies comes_before(
                    direction,
                    (values[i], #[trigger] ids[i]),
                    item,
                ) by {
                    assert(ordered.contains(ordered[i]));
                    assert(item_order(direction)(ordered[i], item));
                }
            }
        }
    }
}

/// The places of ids that have a record.
pub open spec fn have_record(
    ids: Seq<ExtendedPointId>,
    records: Map<ExtendedPointId, RecordView>,
) -> spec_fn(int) -> bool {
    |i: int| records.contains_key(ids[i])
}

/// Whether `found` are the records of those of the ids that have one, in the
/// order of the ids.
pub open spec fn are_records_of(
    found: Seq<Record>,
    ids: Seq<ExtendedPointId>,
    records: Map<ExtendedPointId, RecordView>,
) -> bool {
    exists|at: Seq<int>|
        #[trigger] picks(at, ids.len(), have_record(ids, records)) && found.len() == at.len() && forall|j: int|
            0 <= j < at.len() ==> (#[trigger] found[j])@ == records[ids[at[j]]]
}

/// The places of the ids that have a record.
pub proof fn lemma_places_of_records(
    ids: Seq<ExtendedPointId>,
    records: Map<ExtendedPointId, RecordView>,
) -> (at: Seq<int>)
    ensures
        picks(at, ids.len(), have_record(ids, records)),
        found_records(ids, records).len() == at.len(),
        forall|j: int|
            0 <= j < at.len() ==> #[trigger] found_records(ids, records)[j] == records[ids[at[j]]],
    decreases ids.len(),
{
    if ids.len() == 0 {
        assert(ids =~= Seq::empty());
        lemma_found_records(ids, ExtendedPointId::NumId(0), records);
        Seq::empty()
    } else {
        let rest = ids.drop_last();
        let n = rest.len();
        let at = lemma_places_of_records(rest, records);
        assert(ids =~= rest.push(ids.last()));
        lemma_found_records(rest, ids.last(), records);
        let wanted = have_record(ids, records);
        lemma_picks_one_more(at, n, have_record(rest, records), wanted);
        assert forall|j: int| 0 <= j < at.len() implies ids[#[trigger] at[j]] == rest[at[j]] by {}
        let all = if records.contains_key(ids.last()) {
            at.push(n as int)
        } else {
            at
        };
        assert forall|j: int| 0 <= j < all.len() implies #[trigger] found_records(ids, records)[j]
            == records[ids[all[j]]] by {
            if j < at.len() {
                assert(found_records(rest, records)[j] == records[rest[at[j]]]);
            }
        }
        all
    }
}

/// When the records have come, a scroll whose records are to be in the order of
/// the ids is over: it gives the record of each id that has one, in that order.
/// If the ids go with values, it gives the values too.
pub proof fn law_records_come_in_the_order_of_ids<'a, F, P, W>(
    scroll: Scroll<'a, F, P, W>,
    records: RecordMap,
    after: Scroll<'a, F, P, W>,
)
    requires
        call_ensures(Scroll::<'a, F, P, W>::resume, (scroll, Event::Records(Ok(records))), after),
        scroll is Retrieve,
        !(scroll->Retrieve_arrangement is Any),
    ensures
        after is Done,
        after->Done_0 is Ok,
        scroll->Retrieve_arrangement is Ids ==> after->Done_0->Ok_0 is Records && are_records_of(
            after->Done_0->Ok_0->Records_0@,
            scroll->Retrieve_ids@,
            records@,
        ),
        scroll->Retrieve_arrangement is Values ==> after->Done_0->Ok_0 is Ordered
            && are_records_of(
            after->Done_0->Ok_0->Ordered_0@,
            scroll->Retrieve_ids@,
            records@,
        ) && after->Done_0->Ok_0->Ordered_1@ == scroll->Retrieve_arrangement->Values_0@,
{
    let ids = scroll->Retrieve_ids@;
    let found = match after->Done_0->Ok_0 {
        Page::Records(found) => found@,
        Page::Ordered(found, _) => found@,
    };
    let at = lemma_places_of_records(ids, records@);
    assert(seq_view(found) == found_records(ids, records@));
    assert(found.len() == seq_view(found).len());
    assert forall|j: int| 0 <= j < at.len() implies (#[trigger] found[j])@
        == records@[ids[at[j]]] by {
        assert(seq_view(found)[j] == found[j]@);
    }
    assert(picks(at, ids.len(), have_record(ids, records@)));
    assert(are_records_of(found, ids, records@));
}

/// Whether `found` are the records of a map, each once.
pub open spec fn are_all_records(
    found: Seq<Record>,
    records: Map<ExtendedPointId, RecordView>,
) -> bool {
    exists|ids: Seq<ExtendedPointId>|
        #[trigger] ids.no_duplicates() && ids.len() == found.len() && (forall|id: ExtendedPointId|
            #[trigger] records.contains_key(id) <==> ids.contains(id)) && forall|j: int|
            0 <= j < ids.len() ==> (#[trigger] found[j])@ == records[ids[j]]
}

/// When the records have come, a scroll whose records are to be in no particular
/// order is over: it gives all of them, each once.
pub proof fn law_all_records_come<'a, F, P, W>(
    scroll: Scroll<'a, F, P, W>,
    records: RecordMap,
    after: Scroll<'a, F, P, W>,
)
    requires
        call_ensures(Scroll::<'a, F, P, W>::resume, (scroll, Event::Records(Ok(records))), after),
        scroll is Retrieve,
        scroll->Retrieve_arrangement is Any,
    ensures
        after is Done,
        after->Done_0 is Ok,
        after->Done_0->Ok_0 is Records,
        are_all_records(after->Done_0->Ok_0->Records_0@, records@),
{
    let found = after->Done_0->Ok_0->Records_0@;
    let ids = choose|ids: Seq<ExtendedPointId>|
        crate::assoc::lists_values_of(seq_view(found), records@, ids);
    assert(found.len() == seq_view(found).len());
    assert forall|id: ExtendedPointId| #[trigger]
        records@.contains_key(id) <==> ids.contains(id) by {
        assert(ids.to_set().contains(id) <==> records@.dom().contains(id));
    }
    assert forall|j: int| 0 <= j < ids.len() implies (#[trigger] found[j])@ == records@[ids[j]] by {
        assert(seq_view(found)[j] == found[j]@);
    }
    assert(ids.no_duplicates());
}

/// Whatever a scroll waits for, an error that comes instead ends it with that
/// error.
pub proof fn law_error_ends<'a, F, P, W>(
    scroll: Scroll<'a, F, P, W>,
    event: Event,
    after: Scroll<'a, F, P, W>,
    error: CollectionError,
)
    requires
        call_ensures(Scroll::<'a, F, P, W>::resume, (scroll, event), after),
        scroll is ReadIds && event == Event::Ids(Err(error)) || scroll is ReadItems && event
            == Event::Items(Err(error)) || scroll is ReadRandom && event == Event::Random(
            Err(error),
        ) || scroll is Retrieve && event == Event::Records(Err(error)),
    ensures
        after is Done,
        after->Done_0 is Err,
        after->Done_0->Err_0 == error,
{
}

/// A batch gives what its scrolls gave, in the same places, or the error of one
/// that failed. If the time is over before they are, it gives the error that
/// names the operation and the seconds that it was given.
pub proof fn law_batch_gives_what_came(
    joined: Option<CollectionResult<Vec<Vec<ScoredPoint>>>>,
    timeout_secs: u64,
    result: CollectionResult<Vec<Vec<ScoredPoint>>>,
)
    requires
        call_ensures(batch_result, (joined, timeout_secs), result),
    ensures
        joined is Some ==> result == joined->Some_0,
        joined is None ==> {
            &&& result is Err
            &&& result->Err_0 is Timeout
            &&& result->Err_0->seconds == timeout_secs as usize
            &&& result->Err_0->operation@ == "Query scroll"@
        },
{
}

/// The points of segments are counted by adding them up.
pub proof fn lemma_total_is_sum(reads: Seq<RandomRead>)
    ensures
        total_points(reads) == sum_of(reads.map_values(|read: RandomRead| read.0)),
    decreases reads.len(),
{
    let counts = reads.map_values(|read: RandomRead| read.0);
    if reads.len() > 0 {
        let rest = reads.drop_last();
        lemma_total_is_sum(rest);
        lemma_sum_push(rest.map_values(|read: RandomRead| read.0), reads.last().0);
        assert(counts =~= rest.map_values(|read: RandomRead| read.0).push(reads.last().0));
    }
}

/// When the random points have come, a random scroll that wants points and got
/// some tosses coins, beginning with the first segment: nothing is selected yet,
/// and each segment has the points that came from it and its share of all
/// points. Otherwise it asks for the records of no points.
pub proof fn law_random_scroll_begins<'a, F, P, W>(
    scroll: Scroll<'a, F, P, W>,
    reads: Vec<RandomRead>,
    after: Scroll<'a, F, P, W>,
)
    requires
        call_ensures(Scroll::<'a, F, P, W>::resume, (scroll, Event::Random(Ok(reads))), after),
        scroll is ReadRandom,
    ensures
        ({
            let wanted = scroll->ReadRandom_limit > 0 && exists|i: int|
                0 <= i < reads@.len() && (#[trigger] reads@[i]).1@.len() > 0;
            let draw = after->Toss_draw@;
            &&& !wanted ==> {
                &&& after is Retrieve
                &&& after->Retrieve_arrangement is Any
                &&& after->Retrieve_ids@.len() == 0
                &&& after->Retrieve_selection.filter == scroll->ReadRandom_selection.filter
                &&& after->Retrieve_selection.with_payload
                    == scroll->ReadRandom_selection.with_payload
                &&& after->Retrieve_selection.with_vector
                    == scroll->ReadRandom_selection.with_vector
            }
            &&& wanted ==> {
                &&& after is Toss
                &&& after->Toss_selection.filter == scroll->ReadRandom_selection.filter
                &&& after->Toss_selection.with_payload == scroll->ReadRandom_selection.with_payload
                &&& after->Toss_selection.with_vector == scroll->ReadRandom_selection.with_vector
                &&& draw.limit == scroll->ReadRandom_limit
                &&& draw.points.len() == 0
                &&& draw.segment == 0
                &&& draw.total == sum_of(reads@.map_values(|read: RandomRead| read.0))
                &&& draw.reads.len() == reads@.len()
                &&& draw.available.len() == reads@.len()
                &&& draw.exhausted.len() == reads@.len()
                &&& forall|i: int|
                    0 <= i < reads@.len() ==> draw.reads[i] == (#[trigger] reads@[i]).1@
                        && draw.available[i] == reads@[i].0 && !draw.exhausted[i]
            }
        }),
{
    let start = draw_start(reads@, scroll->ReadRandom_limit as nat);
    lemma_total_is_sum(reads@);
    if exists|i: int| 0 <= i < reads@.len() && (#[trigger] reads@[i]).1@.len() > 0 {
        let i = choose|i: int| 0 <= i < reads@.len() && (#[trigger] reads@[i]).1@.len() > 0;
        assert(start.reads[i].len() > 0);
    } else {
        assert forall|i: int| 0 <= i < start.reads.len() implies (#[trigger] start.reads[i]).len()
            == 0 by {
            assert(reads@[i].1@.len() == 0);
        }
        assert(start.finished());
    }
}

/// Whether `after` is the selection `before` after the coin for its segment
/// fell, apart from the segment that comes next. On heads the last point that
/// came from the segment is selected; if none is left, the segment is closed.
/// On tails nothing changes.
pub open spec fn coin_fell(before: DrawView, heads: bool, after: DrawView) -> bool {
    let segment = before.segment;
    let read = before.reads[segment];
    let takes = heads && read.len() > 0;
    &&& after.limit == before.limit
    &&& after.available == before.available
    &&& after.total == before.total
    &&& after.points == if takes {
        before.points.push(read[read.len() - 1])
    } else {
        before.points
    }
    &&& after.reads.len() == before.reads.len()
    &&& after.exhausted.len() == before.exhausted.len()
    &&& forall|i: int|
        0 <= i < before.reads.len() && i != segment ==> #[trigger] after.reads[i]
            == before.reads[i]
    &&& after.reads[segment] == if takes {
        read.take(read.len() - 1)
    } else {
        read
    }
    &&& forall|i: int|
        0 <= i < before.exhausted.len() && i != segment ==> #[trigger] after.exhausted[i]
            == before.exhausted[i]
    &&& after.exhausted[segment] == (heads && read.len() == 0)
}

/// Whether a selection is over: it has as many points as it may, or no segment
/// has a point left.
pub open spec fn is_over(draw: DrawView) -> bool {
    draw.points.len() == draw.limit || forall|i: int|
        0 <= i < draw.reads.len() ==> (#[trigger] draw.reads[i]).len() == 0
}

/// What a toss does to a selection.
pub proof fn lemma_coin_fell(before: DrawView, heads: bool)
    requires
        before.wf(),
        !before.finished(),
    ensures
        coin_fell(before, heads, before.tossed(heads)),
        before.tossed(heads).finished() == is_over(before.tossed(heads)),
        !is_over(before.tossed(heads)) ==> next_open(
            before.tossed(heads).exhausted,
            before.segment,
            before.tossed(heads).segment,
        ),
{
    law_toss(before, heads);
    let drawn = if heads {
        before.heads()
    } else {
        before
    };
    assert forall|i: int| 0 <= i < drawn.reads.len() && #[trigger] drawn.exhausted[i] implies drawn.reads[i].len()
        == 0 by {
        assert(i != before.segment ==> drawn.exhausted[i] == before.exhausted[i]);
    }
    lemma_turned(drawn);
    let read = before.reads[before.segment];
    if read.len() > 0 {
        assert(read.drop_last() =~= read.take(read.len() - 1));
    }
}

/// When a coin has fallen, a random scroll tosses the next one, for the first
/// segment after this one, going round, that is not closed; or, if the
/// selection is over, it asks for the records of the points that are selected.
pub proof fn law_random_scroll_goes_on<'a, F, P, W>(
    scroll: Scroll<'a, F, P, W>,
    heads: bool,
    after: Scroll<'a, F, P, W>,
    drawn: DrawView,
)
    requires
        call_ensures(Scroll::<'a, F, P, W>::resume, (scroll, Event::Tossed(heads)), after),
        scroll is Toss,
        scroll.wf(),
        coin_fell(scroll->Toss_draw@, heads, drawn),
    ensures
        is_over(drawn) ==> {
            &&& after is Retrieve
            &&& after->Retrieve_arrangement is Any
            &&& after->Retrieve_ids@ == drawn.points
            &&& after->Retrieve_selection.filter == scroll->Toss_selection.filter
            &&& after->Retrieve_selection.with_payload == scroll->Toss_selection.with_payload
            &&& after->Retrieve_selection.with_vector == scroll->Toss_selection.with_vector
        },
        !is_over(drawn) ==> {
            &&& after is Toss
            &&& coin_fell(scroll->Toss_draw@, heads, after->Toss_draw@)
            &&& next_open(
                after->Toss_draw@.exhausted,
                scroll->Toss_draw@.segment,
                after->Toss_draw@.segment,
            )
            &&& after->Toss_selection.filter == scroll->Toss_selection.filter
            &&& after->Toss_selection.with_payload == scroll->Toss_selection.with_payload
            &&& after->Toss_selection.with_vector == scroll->Toss_selection.with_vector
        },
{
    let before = scroll->Toss_draw@;
    let tossed = before.tossed(heads);
    lemma_coin_fell(before, heads);
    law_toss(before, heads);
    assert(tossed.reads =~= drawn.reads) by {
        assert forall|i: int| 0 <= i < tossed.reads.len() implies tossed.reads[i]
            == drawn.reads[i] by {
            if i != before.segment {
                assert(drawn.reads[i] == before.reads[i]);
            }
        }
    }
    assert(tossed.points == drawn.points);
    assert(is_over(tossed) == is_over(drawn));
}

/// A scroll awaits what it asked for, or the error that came instead. Random
/// points must give the segments weights that can be computed: their sizes add
/// up to a number that fits, which is not zero if any point came. A scroll that
/// is over awaits nothing.
pub proof fn law_scroll_awaits_what_it_asked_for<'a, F, P, W>(
    scroll: &Scroll<'a, F, P, W>,
    event: &Event,
    awaited: bool,
)
    requires
        call_ensures(Scroll::<'a, F, P, W>::is_awaiting, (scroll, event), awaited),
        event matches Event::Records(Ok(records)) ==> records.wf(),
    ensures
        scroll is ReadIds ==> awaited == (*event is Ids),
        scroll is ReadItems ==> awaited == (*event is Items),
        scroll is Toss ==> awaited == (*event is Tossed),
        scroll is Retrieve ==> awaited == (*event is Records),
        scroll is Done ==> !awaited,
        scroll is ReadRandom ==> awaited == match *event {
            Event::Random(Err(_)) => true,
            Event::Random(Ok(reads)) => {
                let sum = sum_of(reads@.map_values(|read: RandomRead| read.0));
                sum <= usize::MAX && (sum > 0 || forall|i: int|
                    0 <= i < reads@.len() ==> (#[trigger] reads@[i]).1@.len() == 0)
            },
            _ => false,
        },
{
    if let Event::Random(Ok(reads)) = event {
        lemma_total_is_sum(reads@);
    }
}

/// The ids whose records a scroll by id asks for are those that merging the ids
/// of all its reads gives.
pub proof fn law_scroll_by_id_merges_its_reads<'a, F, P, W>(
    scroll: Scroll<'a, F, P, W>,
    more: Vec<Vec<ExtendedPointId>>,
    after: Scroll<'a, F, P, W>,
    reads: &Vec<Vec<ExtendedPointId>>,
    ids: Vec<ExtendedPointId>,
)
    requires
        call_ensures(Scroll::<'a, F, P, W>::resume, (scroll, Event::Ids(Ok(more))), after),
        scroll is ReadIds,
        scroll->ReadIds_rest is None,
        reads@ == scroll->ReadIds_reads@ + more@,
        call_ensures(merge_point_ids, (reads, scroll->ReadIds_limit), ids),
    ensures
        after is Retrieve,
        after->Retrieve_ids@ == ids@,
{
}

/// The ids whose records a scroll by field asks for, and their values, are those
/// that merging the items of all its reads in the direction of the field gives.
pub proof fn law_scroll_by_field_merges_its_reads<'a, F, P, W>(
    scroll: Scroll<'a, F, P, W>,
    more: Vec<CollectionResult<Vec<Item>>>,
    after: Scroll<'a, F, P, W>,
    reads: &Vec<Vec<Item>>,
    page: (Vec<OrderValue>, Vec<ExtendedPointId>),
)
    requires
        call_ensures(Scroll::<'a, F, P, W>::resume, (scroll, Event::Items(Ok(more))), after),
        scroll is ReadItems,
        scroll->ReadItems_rest is None,
        reads@.len() == (scroll->ReadItems_results@ + more@).len(),
        forall|r: int|
            0 <= r < reads@.len() ==> (#[trigger] (scroll->ReadItems_results@ + more@)[r]) is Ok
                && (scroll->ReadItems_results@ + more@)[r]->Ok_0@ == reads@[r]@,
        call_ensures(
            merge_ordered,
            (reads, scroll->ReadItems_order_by.direction, scroll->ReadItems_limit),
            page,
        ),
    ensures
        after is Retrieve,
        after->Retrieve_arrangement is Values,
        after->Retrieve_ids@ == page.1@,
        after->Retrieve_arrangement->Values_0@ == page.0@,
{
    let results = scroll->ReadItems_results@ + more@;
    lemma_first_error(results, results.len() as int);
    assert(items_read(results) =~= seq_view(reads@)) by {
        assert forall|r: int| 0 <= r < reads@.len() implies items_read(results)[r] == seq_view(
            reads@,
        )[r] by {
            assert(results[r]->Ok_0@ == reads@[r]@);
        }
    }
}

/// If every place is wanted, every place is listed where it is.
proof fn lemma_all_picked(at: Seq<int>, len: nat, wanted: spec_fn(int) -> bool)
    requires
        picks(at, len, wanted),
        forall|i: int| 0 <= i < len ==> #[trigger] wanted(i),
    ensures
        at.len() == len,
        forall|j: int| 0 <= j < len ==> #[trigger] at[j] == j,
    decreases len,
{
    if len == 0 {
        if at.len() > 0 {
            assert(0 <= at[0] < len);
        }
    } else {
        let last = (len - 1) as int;
        assert(wanted(last));
        assert(at.contains(last));
        let m = choose|m: int| 0 <= m < at.len() && at[m] == last;
        if m < at.len() - 1 {
            assert(at[m] < at[at.len() - 1]);
        }
        let rest = at.drop_last();
        assert forall|j: int| 0 <= j < rest.len() implies 0 <= #[trigger] rest[j] < last && wanted(
            rest[j],
        ) by {
            assert(rest[j] == at[j]);
            assert(at[j] < at[m]);
        }
        assert forall|i: int| 0 <= i < last && #[trigger] wanted(i) implies rest.contains(i) by {
            assert(at.contains(i));
            let j = choose|j: int| 0 <= j < at.len() && at[j] == i;
            assert(rest[j] == i);
        }
        assert forall|i: int, j: int| 0 <= i < j < rest.len() implies #[trigger] rest[i]
            < #[trigger] rest[j] by {
            assert(at[i] < at[j]);
        }
        lemma_all_picked(rest, last as nat, wanted);
        assert forall|j: int| 0 <= j < len implies #[trigger] at[j] == j by {
            if j < last {
                assert(rest[j] == j);
            }
        }
    }
}

/// If each id that a query asks for has a record, under its own id, the query
/// gives a point for each id, in the order of the ids and with the payload, the
/// vector and the shard key of its record. If the ids go with values, each
/// point has the value of its id.
pub proof fn law_query_gives_a_point_for_each_id<'a, F, P, W>(
    scroll: Scroll<'a, F, P, W>,
    records: RecordMap,
    after: Scroll<'a, F, P, W>,
    points: CollectionResult<Vec<ScoredPoint>>,
    i: int,
)
    requires
        call_ensures(Scroll::<'a, F, P, W>::resume, (scroll, Event::Records(Ok(records))), after),
        call_ensures(query_points, (after->Done_0,), points),
        scroll is Retrieve,
        !(scroll->Retrieve_arrangement is Any),
        scroll->Retrieve_arrangement matches Arrangement::Values(values) ==> values@.len()
            == scroll->Retrieve_ids@.len(),
        forall|j: int|
            0 <= j < scroll->Retrieve_ids@.len() ==> records@.contains_key(
                #[trigger] scroll->Retrieve_ids@[j],
            ) && records@[scroll->Retrieve_ids@[j]].id == scroll->Retrieve_ids@[j],
    ensures
        points is Ok,
        points->Ok_0@.len() == scroll->Retrieve_ids@.len(),
        0 <= i < points->Ok_0@.len() ==> {
            let id = scroll->Retrieve_ids@[i];
            let point = points->Ok_0@[i];
            &&& point.id == id
            &&& point@.payload == records@[id].payload
            &&& point@.vector == records@[id].vector
            &&& point@.shard_key == records@[id].shard_key
            &&& scroll->Retrieve_arrangement is Ids ==> point.order_value is None
            &&& scroll->Retrieve_arrangement matches Arrangement::Values(values)
                ==> point.order_value == Some(values@[i])
        },
{
    let ids = scroll->Retrieve_ids@;
    law_records_come_in_the_order_of_ids(scroll, records, after);
    law_query_gives_the_records(after->Done_0, points);
    let found = match after->Done_0->Ok_0 {
        Page::Records(found) => found@,
        Page::Ordered(found, _) => found@,
    };
    assert(are_records_of(found, ids, records@));
    let at = choose|at: Seq<int>|
        #[trigger] picks(at, ids.len(), have_record(ids, records@)) && found.len() == at.len()
            && forall|j: int| 0 <= j < at.len() ==> (#[trigger] found[j])@ == records@[ids[at[j]]];
    assert forall|j: int| 0 <= j < ids.len() implies #[trigger] have_record(ids, records@)(j) by {
        assert(records@.contains_key(ids[j]));
    }
    lemma_all_picked(at, ids.len(), have_record(ids, records@));
    if 0 <= i < ids.len() {
        assert(at[i] == i);
        assert(found[i]@ == records@[ids[i]]);
        assert(has_parts_of(points->Ok_0@[i], found[i]));
        assert(records@[ids[i]].id == ids[i]);
    }
}

/// A scroll goes on with whatever it asked for, and with any error that comes
/// instead.
pub proof fn law_scroll_accepts_what_it_asked_for<'a, F, P, W>(
    scroll: Scroll<'a, F, P, W>,
    event: Event,
)
    requires
        scroll.wf(),
        scroll is ReadIds && event is Ids || scroll is ReadItems && event is Items || scroll is Toss
            && event is Tossed || scroll is Retrieve && (event matches Event::Records(result)
            && (result is Ok ==> result->Ok_0.wf())) || scroll is ReadRandom && (
        event matches Event::Random(result) && (result is Ok ==> {
            let sum = sum_of(result->Ok_0@.map_values(|read: RandomRead| read.0));
            sum <= usize::MAX && (sum > 0 || forall|i: int|
                0 <= i < result->Ok_0@.len() ==> (#[trigger] result->Ok_0@[i]).1@.len() == 0)
        })),
    ensures
        call_requires(Scroll::<'a, F, P, W>::resume, (scroll, event)),
{
    if let Event::Random(Ok(reads)) = event {
        lemma_total_is_sum(reads@);
    }
}

/// What a scroll becomes can go on.
pub proof fn law_scroll_can_go_on<'a, F, P, W>(
    scroll: Scroll<'a, F, P, W>,
    event: Event,
    after: Scroll<'a, F, P, W>,
)
    requires
        call_ensures(Scroll::<'a, F, P, W>::resume, (scroll, event), after),
    ensures
        after.wf(),
{
}

/// Scrolls can be started with anything, and can go on.
pub proof fn law_scrolls_can_be_started<'a, F, P, W>(
    shard: &LocalShard,
    offset: Option<ExtendedPointId>,
    limit: usize,
    with_payload: &'a P,
    with_vector: &'a W,
    filter: Option<&'a F>,
    order_by: &'a OrderBy,
    request: &'a QueryScrollRequestInternal<F, P, W>,
    start: Scroll<'a, F, P, W>,
)
    ensures
        call_requires(
            LocalShard::scroll_by_id::<F, P, W>,
            (shard, offset, limit, with_payload, with_vector, filter),
        ),
        call_requires(
            LocalShard::scroll_by_field::<F, P, W>,
            (shard, limit, with_payload, with_vector, filter, order_by),
        ),
        call_requires(
            LocalShard::scroll_randomly::<F, P, W>,
            (shard, limit, with_payload, with_vector, filter),
        ),
        call_requires(LocalShard::query_scroll::<F, P, W>, (shard, request)),
        call_ensures(LocalShard::query_scroll::<F, P, W>, (shard, request), start) ==> start.wf(),
{
}

/// The error of an operation that took too long names the operation and the
/// seconds.
pub proof fn law_timeout_names_the_operation(
    seconds: usize,
    operation: &str,
    error: CollectionError,
)
    requires
        call_ensures(CollectionError::timeout, (seconds, operation), error),
    ensures
        error is Timeout,
        error->seconds == seconds,
        error->operation@ == operation@,
{
}

} // verus!
