//! What holds of scrolls from their start to their end.
use crate::arrange::strictly_in_order;
use crate::assoc::lists_values;
use crate::draw_laws::{law_finished_selection, law_nothing_to_select, law_selection};
use crate::error::{CollectionError, CollectionResult};
use crate::order::{id_order, ids_of_items, page_of_ids, page_of_items, values_of_items, Item};
use crate::page_laws::law_page_of_ids;
use crate::point::{ExtendedPointId, RecordView};
use crate::random::{draw_start, nothing_read, weighted, DrawView, RandomRead};
use crate::records::{found_records, lemma_found_records, RecordMap};
use crate::scroll::{
    first_error, follows, items_read, points_of_page, reads_in_order, retrieves_first_items,
    starts_by_field, starts_by_id, starts_query, starts_randomly, Event, LocalShard, OrderBy, Page,
    QueryScrollRequestInternal, Scroll, Selection,
};
use crate::views::seq_view;
use vstd::prelude::*;

verus! {

/// A scroll by id reads the non-appendable segments, then the appendable ones,
/// and gives the records of the first `limit` distinct ids among what it read,
/// in ascending order of the ids.
pub proof fn law_scroll_by_id<'a, F, P, W>(
    shard: LocalShard,
    offset: Option<ExtendedPointId>,
    limit: usize,
    with_payload: &'a P,
    with_vector: &'a W,
    filter: Option<&'a F>,
    start: Scroll<'a, F, P, W>,
    non_appendable: Vec<Vec<ExtendedPointId>>,
    middle: Scroll<'a, F, P, W>,
    appendable: Vec<Vec<ExtendedPointId>>,
    last: Scroll<'a, F, P, W>,
    records: RecordMap,
    end: Scroll<'a, F, P, W>,
)
    requires
        starts_by_id(shard, offset, limit, with_payload, with_vector, filter, start),
        follows(start, Event::Ids(Ok(non_appendable)), middle),
        follows(middle, Event::Ids(Ok(appendable)), last),
        follows(last, Event::Records(Ok(records)), end),
    ensures
        middle matches Scroll::ReadIds { segments, .. } && segments@ == shard.appendable@,
        last.retrieves_ids(
            Selection { filter, with_payload, with_vector },
            page_of_ids(seq_view(non_appendable@) + seq_view(appendable@), limit as nat),
        ),
        end matches Scroll::Done(Ok(Page::Records(found))) && seq_view(found@) == found_records(
            page_of_ids(seq_view(non_appendable@) + seq_view(appendable@), limit as nat),
            records@,
        ),
{
    assert(Seq::<Vec<ExtendedPointId>>::empty() + non_appendable@ =~= non_appendable@);
    match (start, middle) {
        (Scroll::ReadIds { reads: none, .. }, Scroll::ReadIds { reads, .. }) => {
            assert(none@ + non_appendable@ =~= non_appendable@);
            assert(seq_view(reads@ + appendable@) =~= seq_view(non_appendable@) + seq_view(
                appendable@,
            ));
        },
        _ => {},
    }
}

/// A scroll by field reads the non-appendable segments, then the appendable
/// ones. If no read failed and each is in order, it gives the records and the
/// values of the first `limit` distinct items among what it read, in order.
pub proof fn law_scroll_by_field<'a, F, P, W>(
    shard: LocalShard,
    limit: usize,
    with_payload: &'a P,
    with_vector: &'a W,
    filter: Option<&'a F>,
    order_by: &'a OrderBy,
    start: Scroll<'a, F, P, W>,
    non_appendable: Vec<CollectionResult<Vec<Item>>>,
    middle: Scroll<'a, F, P, W>,
    appendable: Vec<CollectionResult<Vec<Item>>>,
    last: Scroll<'a, F, P, W>,
    records: RecordMap,
    end: Scroll<'a, F, P, W>,
)
    requires
        starts_by_field(shard, limit, with_payload, with_vector, filter, order_by, start),
        follows(start, Event::Items(Ok(non_appendable)), middle),
        follows(middle, Event::Items(Ok(appendable)), last),
        retrieves_first_items(middle, Event::Items(Ok(appendable)), last),
        follows(last, Event::Records(Ok(records)), end),
        first_error(non_appendable@ + appendable@) is None,
        reads_in_order(items_read(non_appendable@ + appendable@), order_by.direction),
    ensures
        middle matches Scroll::ReadItems { segments, .. } && segments@ == shard.appendable@,
        ({
            let items = page_of_items(
                items_read(non_appendable@ + appendable@),
                order_by.direction,
                limit as nat,
            );
            &&& last.retrieves_items(Selection { filter, with_payload, with_vector }, items)
            &&& end matches Scroll::Done(Ok(Page::Ordered(found, values))) && seq_view(found@)
                == found_records(ids_of_items(items), records@) && values@ == values_of_items(
                items,
            )
        }),
{
    match (start, middle) {
        (Scroll::ReadItems { results: none, .. }, Scroll::ReadItems { results, .. }) => {
            assert(none@ + non_appendable@ =~= non_appendable@);
            assert(results@ == non_appendable@);
        },
        _ => {},
    }
}

/// A failed read ends a scroll by field with the first error, in the order in
/// which the segments are read.
pub proof fn law_failed_read_ends_scroll_by_field<'a, F, P, W>(
    shard: LocalShard,
    limit: usize,
    with_payload: &'a P,
    with_vector: &'a W,
    filter: Option<&'a F>,
    order_by: &'a OrderBy,
    start: Scroll<'a, F, P, W>,
    non_appendable: Vec<CollectionResult<Vec<Item>>>,
    middle: Scroll<'a, F, P, W>,
    appendable: Vec<CollectionResult<Vec<Item>>>,
    end: Scroll<'a, F, P, W>,
    error: CollectionError,
)
    requires
        starts_by_field(shard, limit, with_payload, with_vector, filter, order_by, start),
        follows(start, Event::Items(Ok(non_appendable)), middle),
        follows(middle, Event::Items(Ok(appendable)), end),
        first_error(non_appendable@ + appendable@) == Some(error),
    ensures
        end.failed(error),
{
    match (start, middle) {
        (Scroll::ReadItems { results: none, .. }, Scroll::ReadItems { results, .. }) => {
            assert(none@ + non_appendable@ =~= non_appendable@);
            assert(results@ == non_appendable@);
        },
        _ => {},
    }
}

/// The error that an event brings, if it brings one.
pub open spec fn error_of(event: Event) -> Option<CollectionError> {
    match event {
        Event::Ids(Err(error)) => Some(error),
        Event::Items(Err(error)) => Some(error),
        Event::Random(Err(error)) => Some(error),
        Event::Records(Err(error)) => Some(error),
        _ => None,
    }
}

/// An error ends a scroll with that error.
pub proof fn law_error_ends_scroll<'a, F, P, W>(
    before: Scroll<'a, F, P, W>,
    event: Event,
    after: Scroll<'a, F, P, W>,
    error: CollectionError,
)
    requires
        before.awaits(&event),
        follows(before, event, after),
        error_of(event) == Some(error),
    ensures
        after.failed(error),
{
}

/// A scroll that is over waits for nothing.
pub proof fn law_done_awaits_nothing<'a, F, P, W>(scroll: Scroll<'a, F, P, W>, event: Event)
    requires
        scroll is Done,
    ensures
        !scroll.awaits(&event),
{
}

/// A query by id starts where the points start.
pub proof fn law_query_by_id_has_no_offset<'a, F, P, W>(
    shard: LocalShard,
    request: &'a QueryScrollRequestInternal<F, P, W>,
    scroll: Scroll<'a, F, P, W>,
)
    requires
        request.scroll_order is ById,
        starts_query(shard, request, scroll),
    ensures
        scroll matches Scroll::ReadIds { offset, limit, .. } && offset is None && limit
            == request.limit,
{
}

/// If there is a record for every id, the records for the ids are those
/// records, in the same places.
proof fn lemma_all_found(ids: Seq<ExtendedPointId>, records: Map<ExtendedPointId, RecordView>)
    requires
        forall|i: int| 0 <= i < ids.len() ==> records.contains_key(#[trigger] ids[i]),
    ensures
        found_records(ids, records).len() == ids.len(),
        forall|i: int|
            0 <= i < ids.len() ==> #[trigger] found_records(ids, records)[i] == records[ids[i]],
    decreases ids.len(),
{
    if ids.len() > 0 {
        let rest = ids.drop_last();
        assert(ids =~= rest.push(ids.last()));
        assert(records.contains_key(ids[ids.len() - 1]));
        assert forall|i: int| 0 <= i < rest.len() implies records.contains_key(
            #[trigger] rest[i],
        ) by {
            assert(records.contains_key(ids[i]));
        }
        lemma_all_found(rest, records);
        lemma_found_records(rest, ids.last(), records);
    } else {
        assert(ids =~= Seq::empty());
        lemma_found_records(ids, ExtendedPointId::NumId(0), records);
    }
}

/// There are at most as many records as ids.
pub proof fn law_at_most_one_record_per_id(
    ids: Seq<ExtendedPointId>,
    records: Map<ExtendedPointId, RecordView>,
)
    ensures
        found_records(ids, records).len() <= ids.len(),
    decreases ids.len(),
{
    if ids.len() > 0 {
        assert(ids =~= ids.drop_last().push(ids.last()));
        law_at_most_one_record_per_id(ids.drop_last(), records);
        lemma_found_records(ids.drop_last(), ids.last(), records);
    } else {
        assert(ids =~= Seq::empty());
        lemma_found_records(ids, ExtendedPointId::NumId(0), records);
    }
}

/// The records of ids that are in ascending order are in ascending order, and
/// are found for these ids.
proof fn lemma_records_in_id_order(
    ids: Seq<ExtendedPointId>,
    records: Map<ExtendedPointId, RecordView>,
)
    requires
        strictly_in_order(id_order(), ids),
        forall|id: ExtendedPointId| #[trigger] records.contains_key(id) ==> records[id].id == id,
    ensures
        strictly_in_order(id_order(), ids_of_records(found_records(ids, records))),
        forall|i: int|
            0 <= i < found_records(ids, records).len() ==> ids.contains(
                (#[trigger] found_records(ids, records)[i]).id,
            ),
    decreases ids.len(),
{
    if ids.len() > 0 {
        let rest = ids.drop_last();
        let last = ids.last();
        let before = found_records(rest, records);
        let found = found_records(ids, records);
        assert(ids =~= rest.push(last));
        assert forall|a: int, b: int| 0 <= a < b < rest.len() implies #[trigger] id_order()(
            rest[a],
            rest[b],
        ) && rest[a] != rest[b] by {
            assert(id_order()(ids[a], ids[b]));
        }
        lemma_records_in_id_order(rest, records);
        lemma_found_records(rest, last, records);
        assert forall|i: int| 0 <= i < before.len() implies ids.contains(
            (#[trigger] before[i]).id,
        ) && id_order()(before[i].id, last) && before[i].id != last by {
            assert(rest.contains(before[i].id));
            let k = choose|k: int| 0 <= k < rest.len() && rest[k] == before[i].id;
            assert(ids[k] == before[i].id);
            assert(id_order()(ids[k], ids[ids.len() - 1]));
        }
        assert(ids[ids.len() - 1] == last);
        let all = ids_of_records(found);
        assert forall|a: int, b: int| 0 <= a < b < all.len() implies #[trigger] id_order()(
            all[a],
            all[b],
        ) && all[a] != all[b] by {
            if b < before.len() {
                assert(id_order()(ids_of_records(before)[a], ids_of_records(before)[b]));
            } else {
                assert(found[b] == records[last]);
                assert(found[a] == before[a]);
            }
        }
    } else {
        assert(ids =~= Seq::empty());
        lemma_found_records(ids, ExtendedPointId::NumId(0), records);
    }
}

/// The ids of records.
pub open spec fn ids_of_records(records: Seq<RecordView>) -> Seq<ExtendedPointId> {
    records.map_values(|record: RecordView| record.id)
}

/// A page by id has at most `limit` records, in ascending order of their ids,
/// if the records stand under their own ids.
pub proof fn law_page_by_id(
    reads: Seq<Seq<ExtendedPointId>>,
    limit: nat,
    records: Map<ExtendedPointId, RecordView>,
)
    requires
        forall|id: ExtendedPointId| #[trigger] records.contains_key(id) ==> records[id].id == id,
    ensures
        found_records(page_of_ids(reads, limit), records).len() <= limit,
        strictly_in_order(
            id_order(),
            ids_of_records(found_records(page_of_ids(reads, limit), records)),
        ),
{
    law_page_of_ids(reads, limit);
    law_at_most_one_record_per_id(page_of_ids(reads, limit), records);
    lemma_records_in_id_order(page_of_ids(reads, limit), records);
}

/// The points of a query by field carry the values that they were ordered by,
/// if a record was found for each of them, under its own id.
pub proof fn law_order_values(
    items: Seq<Item>,
    records: Map<ExtendedPointId, RecordView>,
    page: Page,
)
    requires
        page matches Page::Ordered(found, values) && seq_view(found@) == found_records(
            ids_of_items(items),
            records,
        ) && values@ == values_of_items(items),
        forall|i: int|
            0 <= i < items.len() ==> records.contains_key((#[trigger] items[i]).1)
                && records[items[i].1].id == items[i].1,
    ensures
        points_of_page(page).len() == items.len(),
        forall|i: int|
            0 <= i < items.len() ==> {
                &&& (#[trigger] points_of_page(page)[i]).id == items[i].1
                &&& points_of_page(page)[i].order_value == Some(items[i].0)
            },
{
    let ids = ids_of_items(items);
    assert forall|i: int| 0 <= i < ids.len() implies records.contains_key(#[trigger] ids[i]) by {
        assert(records.contains_key(items[i].1));
    }
    lemma_all_found(ids, records);
    if let Page::Ordered(found, values) = page {
        assert(found@.len() == seq_view(found@).len());
        assert forall|i: int| 0 <= i < items.len() implies {
            &&& (#[trigger] points_of_page(page)[i]).id == items[i].1
            &&& points_of_page(page)[i].order_value == Some(items[i].0)
        } by {
            assert(seq_view(found@)[i] == found@[i]@);
            assert(found_records(ids, records)[i] == records[ids[i]]);
            assert(records[items[i].1].id == items[i].1);
        }
    }
}

/// Scrolled points have version zero and score zero; only points that were
/// ordered by a field have an order value.
pub proof fn law_scrolled_points(page: Page, i: int)
    requires
        0 <= i < points_of_page(page).len(),
    ensures
        points_of_page(page)[i].version == 0,
        points_of_page(page)[i].score_bits == 0,
        page is Records ==> points_of_page(page)[i].order_value is None,
        page is Ordered ==> points_of_page(page)[i].order_value is Some,
{
}

/// A random scroll goes on as the selection does, from coin to coin.
pub proof fn law_random_scroll<'a, F, P, W>(
    selection: Selection<'a, F, P, W>,
    draw: DrawView,
    scrolls: Seq<Scroll<'a, F, P, W>>,
    coins: Seq<bool>,
)
    requires
        scrolls.len() == coins.len() + 1,
        scrolls[0].draws(selection, draw),
        forall|i: int|
            0 <= i < coins.len() ==> follows(
                #[trigger] scrolls[i],
                Event::Tossed(coins[i]),
                scrolls[i + 1],
            ),
    ensures
        scrolls.last().draws(selection, draw.tossed_all(coins)),
    decreases coins.len(),
{
    if coins.len() > 0 {
        let n = coins.len() - 1;
        let some = scrolls.drop_last();
        assert forall|i: int| 0 <= i < n implies follows(
            #[trigger] some[i],
            Event::Tossed(coins.drop_last()[i]),
            some[i + 1],
        ) by {
            assert(follows(scrolls[i], Event::Tossed(coins[i]), scrolls[i + 1]));
        }
        law_random_scroll(selection, draw, some, coins.drop_last());
        assert(follows(scrolls[n as int], Event::Tossed(coins[n as int]), scrolls[n + 1]));
        assert(some.last() == scrolls[n as int]);
    }
}

/// A random scroll asks for no coin, and for the records of no points, if its
/// reads are all empty or if it is one for no points.
pub proof fn law_random_scroll_without_points<'a, F, P, W>(
    start: Scroll<'a, F, P, W>,
    reads: Vec<RandomRead>,
    after: Scroll<'a, F, P, W>,
)
    requires
        start is ReadRandom,
        weighted(reads@),
        nothing_read(reads@) || start->ReadRandom_limit == 0,
        follows(start, Event::Random(Ok(reads)), after),
    ensures
        start.awaits(&Event::Random(Ok(reads))),
        start matches Scroll::ReadRandom { selection, .. } && after.retrieves_any(
            selection,
            Seq::empty(),
        ),
{
    if let Scroll::ReadRandom { selection, limit, .. } = start {
        law_nothing_to_select(reads@, limit as nat);
    }
}

/// A random scroll that has come to its end gives the records that were found
/// for the points that it selected, in no particular order. It selected `limit`
/// points, or every point that was read, each as often as it was read, if those
/// were no more than `limit`.
pub proof fn law_random_scroll_to_end<'a, F, P, W>(
    shard: LocalShard,
    limit: usize,
    with_payload: &'a P,
    with_vector: &'a W,
    filter: Option<&'a F>,
    start: Scroll<'a, F, P, W>,
    reads: Vec<RandomRead>,
    scrolls: Seq<Scroll<'a, F, P, W>>,
    coins: Seq<bool>,
    records: RecordMap,
    end: Scroll<'a, F, P, W>,
)
    requires
        starts_randomly(shard, limit, with_payload, with_vector, filter, start),
        weighted(reads@),
        scrolls.len() == coins.len() + 1,
        follows(start, Event::Random(Ok(reads)), scrolls[0]),
        forall|i: int|
            0 <= i < coins.len() ==> follows(
                #[trigger] scrolls[i],
                Event::Tossed(coins[i]),
                scrolls[i + 1],
            ),
        follows(scrolls.last(), Event::Records(Ok(records)), end),
    ensures
        ({
            let draw = draw_start(reads@, limit as nat).tossed_all(coins);
            let all = draw_start(reads@, limit as nat).reads.flatten();
            &&& draw.finished()
            &&& scrolls.last().retrieves_any(
                Selection { filter, with_payload, with_vector },
                draw.points,
            )
            &&& all.len() >= limit ==> draw.points.len() == limit
            &&& all.len() <= limit ==> draw.points.to_multiset() == all.to_multiset()
            &&& end matches Scroll::Done(Ok(Page::Records(found))) && lists_values(
                seq_view(found@),
                records@,
            )
        }),
{
    let selection = Selection { filter, with_payload, with_vector };
    let first = draw_start(reads@, limit as nat);
    law_random_scroll(selection, first, scrolls, coins);
    let draw = first.tossed_all(coins);
    assert(draw.finished());
    law_selection(reads@, limit as nat, coins);
    law_finished_selection(reads@, limit as nat, coins);
}

} // verus!
