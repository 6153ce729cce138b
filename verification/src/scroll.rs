//! Pages of the points of a shard: by id, by the value of a field, or at random.
//!
//! A [`Scroll`] says what it waits for: reads of segments, the toss of a coin,
//! or the retrieval of records. [`Scroll::resume`] takes what came of it and
//! goes on, until the scroll is [`Scroll::Done`].
use crate::arrange::first;
use crate::assoc::lists_values;
use crate::error::{CollectionError, CollectionResult};
use crate::order::{
    ids_of_items, is_read_page, item_order, merge_ordered, merge_point_ids, merged_items, page_of_ids, page_of_items,
    values_of_items, without_repeats, Direction, Item,
};
use crate::point::{
    ExtendedPointId, OrderValue, Record, RecordView, ScoredPoint, ScoredPointView,
};
use crate::random::{draw_start, is_weighted, weighted, DrawView, RandomDraw, RandomRead};
use crate::records::{found_records, RecordMap};
use crate::views::seq_view;
use vstd::prelude::*;
use vstd::relations::sorted_by;

verus! {

/// The field that points are ordered by.
#[derive(Debug)]
pub struct OrderBy {
    pub key: String,
    pub direction: Direction,
}

/// The order of a scroll.
#[derive(Debug)]
pub enum ScrollOrder {
    ById,
    ByField(OrderBy),
    Random,
}

/// A request for a page. What selects points, payloads and vectors is handed
/// on as it is.
#[derive(Debug)]
pub struct QueryScrollRequestInternal<F, P, W> {
    pub limit: usize,
    pub with_vector: W,
    pub filter: Option<F>,
    pub scroll_order: ScrollOrder,
    pub with_payload: P,
}

/// Which points are wanted, and which parts of them.
pub struct Selection<'a, F, P, W> {
    pub filter: Option<&'a F>,
    pub with_payload: &'a P,
    pub with_vector: &'a W,
}

/// The segments of a shard, by the numbers that stand for them.
#[derive(Debug)]
pub struct LocalShard {
    pub non_appendable: Vec<u64>,
    pub appendable: Vec<u64>,
}

/// The order of the records that are to be retrieved.
pub enum Arrangement {
    /// The order of the ids.
    Ids,
    /// The order of the ids, which go with these values.
    Values(Vec<OrderValue>),
    /// No particular order.
    Any,
}

/// The records of a page; if the page is ordered by a field, with the values of
/// that field.
#[derive(Debug)]
pub enum Page {
    Records(Vec<Record>),
    Ordered(Vec<Record>, Vec<OrderValue>),
}

/// A scroll, by what it waits for.
pub enum Scroll<'a, F, P, W> {
    /// From each of `segments`, the first `limit` ids from `offset` on that
    /// `selection` admits. `rest` are the segments to be read after that.
    ReadIds {
        selection: Selection<'a, F, P, W>,
        offset: Option<ExtendedPointId>,
        limit: usize,
        segments: Vec<u64>,
        rest: Option<Vec<u64>>,
        reads: Vec<Vec<ExtendedPointId>>,
    },
    /// From each of `segments`, the first `limit` items in the order of
    /// `order_by` that `selection` admits. `rest` are the segments to be read
    /// after that.
    ReadItems {
        selection: Selection<'a, F, P, W>,
        order_by: &'a OrderBy,
        limit: usize,
        segments: Vec<u64>,
        rest: Option<Vec<u64>>,
        results: Vec<CollectionResult<Vec<Item>>>,
    },
    /// From each of `segments`, the number of its points, and `limit` random
    /// ids that `selection` admits.
    ReadRandom { selection: Selection<'a, F, P, W>, limit: usize, segments: Vec<u64> },
    /// A coin that falls on heads with the probability that is the weight of
    /// the segment that comes next in `draw`.
    Toss { selection: Selection<'a, F, P, W>, draw: RandomDraw },
    /// The records of `ids`, with the parts that `selection` wants.
    Retrieve {
        selection: Selection<'a, F, P, W>,
        ids: Vec<ExtendedPointId>,
        arrangement: Arrangement,
    },
    /// Nothing: the scroll is over.
    Done(CollectionResult<Page>),
}

/// What came of what a scroll waited for.
pub enum Event {
    /// The ids that were read from the segments.
    Ids(CollectionResult<Vec<Vec<ExtendedPointId>>>),
    /// The items that were read from the segments.
    Items(CollectionResult<Vec<CollectionResult<Vec<Item>>>>),
    /// The numbers of points of the segments and the random ids that were read
    /// from them.
    Random(CollectionResult<Vec<RandomRead>>),
    /// Whether the coin fell on heads.
    Tossed(bool),
    /// The records that were found.
    Records(CollectionResult<RecordMap>),
}

/// The first error among reads.
pub open spec fn first_error(reads: Seq<CollectionResult<Vec<Item>>>) -> Option<CollectionError>
    decreases reads.len(),
{
    if reads.len() == 0 {
        None
    } else {
        match reads[0] {
            Err(error) => Some(error),
            Ok(_) => first_error(reads.skip(1)),
        }
    }
}

/// The items of reads that did not fail.
pub open spec fn items_read(reads: Seq<CollectionResult<Vec<Item>>>) -> Seq<Seq<Item>> {
    reads.map_values(|read: CollectionResult<Vec<Item>>| read->Ok_0@)
}

/// The items of a page by field: the first `limit` of the merged reads, once
/// repeats are removed.
pub open spec fn merged_page(reads: Seq<Seq<Item>>, direction: Direction, limit: nat) -> Seq<Item> {
    first(without_repeats(merged_items(reads, direction)), limit)
}

impl<'a, F, P, W> Scroll<'a, F, P, W> {
    /// A selection in progress is sound, and not at its end.
    pub open spec fn wf(&self) -> bool {
        match self {
            Scroll::Toss { draw, .. } => draw@.wf() && !draw@.finished(),
            _ => true,
        }
    }

    /// Whether `event` is what the scroll waits for. Random reads must give
    /// each segment a weight, if there are points in them.
    pub open spec fn awaits(&self, event: &Event) -> bool {
        match (self, event) {
            (Scroll::ReadIds { .. }, Event::Ids(_)) => true,
            (Scroll::ReadItems { .. }, Event::Items(_)) => true,
            (Scroll::ReadRandom { .. }, Event::Random(Ok(reads))) => weighted(reads@),
            (Scroll::ReadRandom { .. }, Event::Random(Err(_))) => true,
            (Scroll::Toss { .. }, Event::Tossed(_)) => true,
            (Scroll::Retrieve { .. }, Event::Records(Ok(records))) => records.wf(),
            (Scroll::Retrieve { .. }, Event::Records(Err(_))) => true,
            _ => false,
        }
    }

    /// Whether this scroll is a failed one.
    pub open spec fn failed(&self, error: CollectionError) -> bool {
        match self {
            Scroll::Done(Err(e)) => *e == error,
            _ => false,
        }
    }

    /// Whether this scroll waits for the records of `ids`, to be put in the
    /// order of the ids.
    pub open spec fn retrieves_ids(
        &self,
        selection: Selection<'a, F, P, W>,
        ids: Seq<ExtendedPointId>,
    ) -> bool {
        match self {
            Scroll::Retrieve { selection: s, ids: i, arrangement: Arrangement::Ids } => *s
                == selection && i@ == ids,
            _ => false,
        }
    }

    /// Whether this scroll waits for the records of `items`, to be put in the
    /// order of the items.
    pub open spec fn retrieves_items(
        &self,
        selection: Selection<'a, F, P, W>,
        items: Seq<Item>,
    ) -> bool {
        match self {
            Scroll::Retrieve { selection: s, ids: i, arrangement: Arrangement::Values(v) } => *s
                == selection && i@ == ids_of_items(items) && v@ == values_of_items(items),
            _ => false,
        }
    }

    /// Whether this scroll waits for the records of `ids`, in no particular
    /// order.
    pub open spec fn retrieves_any(
        &self,
        selection: Selection<'a, F, P, W>,
        ids: Seq<ExtendedPointId>,
    ) -> bool {
        match self {
            Scroll::Retrieve { selection: s, ids: i, arrangement: Arrangement::Any } => *s
                == selection && i@ == ids,
            _ => false,
        }
    }

    /// Whether this scroll goes on with the selection `drawn`: it waits for a
    /// coin, or for the records of the selected points if `drawn` is at its
    /// end.
    pub open spec fn draws(
        &self,
        selection: Selection<'a, F, P, W>,
        drawn: DrawView,
    ) -> bool {
        if drawn.finished() {
            self.retrieves_any(selection, drawn.points)
        } else {
            match self {
                Scroll::Toss { selection: s, draw } => *s == selection && draw@ == drawn,
                _ => false,
            }
        }
    }
}

/// Whether `page` is the page of the records that were found for `ids`.
pub open spec fn is_page(
    page: Page,
    ids: Seq<ExtendedPointId>,
    arrangement: Arrangement,
    records: Map<ExtendedPointId, RecordView>,
) -> bool {
    match (page, arrangement) {
        (Page::Records(found), Arrangement::Ids) => seq_view(found@) == found_records(ids, records),
        (Page::Ordered(found, values), Arrangement::Values(v)) => seq_view(found@)
            == found_records(ids, records) && values@ == v@,
        (Page::Records(found), Arrangement::Any) => lists_values(seq_view(found@), records),
        _ => false,
    }
}

/// Whether the scroll `after` is what becomes of the scroll `before` when
/// `event` comes.
pub open spec fn follows<'a, F, P, W>(
    before: Scroll<'a, F, P, W>,
    event: Event,
    after: Scroll<'a, F, P, W>,
) -> bool {
    match (before, event) {
        (Scroll::ReadIds { selection, offset, limit, rest, reads, .. }, Event::Ids(result)) => {
            match (result, rest) {
                (Err(error), _) => after.failed(error),
                (Ok(more), Some(next)) => match after {
                    Scroll::ReadIds {
                        selection: s,
                        offset: o,
                        limit: l,
                        segments,
                        rest: None,
                        reads: r,
                    } => {
                        &&& s == selection
                        &&& o == offset
                        &&& l == limit
                        &&& segments@ == next@
                        &&& r@ == reads@ + more@
                    },
                    _ => false,
                },
                (Ok(more), None) => after.retrieves_ids(
                    selection,
                    page_of_ids(seq_view(reads@ + more@), limit as nat),
                ),
            }
        },
        (
            Scroll::ReadItems { selection, order_by, limit, rest, results, .. },
            Event::Items(result),
        ) => {
            match (result, rest) {
                (Err(error), _) => after.failed(error),
                (Ok(more), Some(next)) => match after {
                    Scroll::ReadItems {
                        selection: s,
                        order_by: b,
                        limit: l,
                        segments,
                        rest: None,
                        results: r,
                    } => {
                        &&& s == selection
                        &&& b == order_by
                        &&& l == limit
                        &&& segments@ == next@
                        &&& r@ == results@ + more@
                    },
                    _ => false,
                },
                (Ok(more), None) => match first_error(results@ + more@) {
                    Some(error) => after.failed(error),
                    None => after.retrieves_items(
                        selection,
                        merged_page(
                            items_read(results@ + more@),
                            order_by.direction,
                            limit as nat,
                        ),
                    ),
                },
            }
        },
        (Scroll::ReadRandom { selection, limit, .. }, Event::Random(result)) => match result {
            Err(error) => after.failed(error),
            Ok(reads) => after.draws(selection, draw_start(reads@, limit as nat)),
        },
        (Scroll::Toss { selection, draw }, Event::Tossed(heads)) => after.draws(
            selection,
            draw@.tossed(heads),
        ),
        (Scroll::Retrieve { ids, arrangement, .. }, Event::Records(result)) => match result {
            Err(error) => after.failed(error),
            Ok(records) => match after {
                Scroll::Done(Ok(page)) => is_page(page, ids@, arrangement, records@),
                _ => false,
            },
        },
        _ => false,
    }
}

/// Whether each read is in the order of the given direction.
pub open spec fn reads_in_order(reads: Seq<Seq<Item>>, direction: Direction) -> bool {
    forall|i: int| 0 <= i < reads.len() ==> sorted_by(#[trigger] reads[i], item_order(direction))
}

/// Whether, when the last items of a page by field come and the items from each
/// segment are in order, the scroll `after` waits for the records of the first
/// distinct items of all.
pub open spec fn retrieves_first_items<'a, F, P, W>(
    before: Scroll<'a, F, P, W>,
    event: Event,
    after: Scroll<'a, F, P, W>,
) -> bool {
    match (before, event) {
        (
            Scroll::ReadItems { selection, order_by, limit, rest: None, results, .. },
            Event::Items(Ok(more)),
        ) => {
            first_error(results@ + more@) is None && reads_in_order(
                items_read(results@ + more@),
                order_by.direction,
            ) ==> after.retrieves_items(
                selection,
                page_of_items(items_read(results@ + more@), order_by.direction, limit as nat),
            )
        },
        _ => true,
    }
}

/// Whether, when the last items of a page by field come, the items whose records
/// the scroll `after` waits for were read, and are all that were read unless
/// they are as many as there may be.
pub open spec fn retrieves_read_items<'a, F, P, W>(
    before: Scroll<'a, F, P, W>,
    event: Event,
    after: Scroll<'a, F, P, W>,
) -> bool {
    match (before, event) {
        (
            Scroll::ReadItems { selection, order_by, limit, rest: None, results, .. },
            Event::Items(Ok(more)),
        ) => {
            first_error(results@ + more@) is None ==> exists|items: Seq<Item>| #[trigger]
                after.retrieves_items(selection, items) && is_read_page(
                    items,
                    items_read(results@ + more@),
                    limit as nat,
                )
        },
        _ => true,
    }
}

/// The first error among reads, or the items of all.
fn collect_items(reads: Vec<CollectionResult<Vec<Item>>>) -> (items: CollectionResult<
    Vec<Vec<Item>>,
>)
    ensures
        match first_error(reads@) {
            Some(error) => items == Err::<Vec<Vec<Item>>, CollectionError>(error),
            None => items is Ok && seq_view(items->Ok_0@) == items_read(reads@),
        },
{
    let ghost all = reads@;
    let mut reads = reads;
    let mut items: Vec<Vec<Item>> = Vec::new();
    assert(all.skip(0) =~= all);
    let mut i: usize = 0;
    #[verifier::loop_isolation(false)]
    while i < reads.len()
        invariant
            reads@ == all,
            i <= all.len(),
            first_error(all) == first_error(all.skip(i as int)),
            items@.len() == i,
            forall|j: int| 0 <= j < i ==> (#[trigger] items@[j])@ == items_read(all)[j],
        decreases all.len() - i,
    {
        proof {
            assert(all.skip(i as int)[0] == all[i as int]);
            assert(all.skip(i as int).skip(1) =~= all.skip(i + 1));
        }
        let copied: Option<Vec<Item>> = match &reads[i] {
            Ok(read) => Some(copy_items(read)),
            Err(_) => None,
        };
        match copied {
            Some(copied) => {
                items.push(copied);
            },
            None => {
                match reads.remove(i) {
                    Err(error) => {
                        return Err(error);
                    },
                    Ok(_) => {
                        assert(false);
                    },
                }
            },
        }
        i += 1;
    }
    assert(seq_view(items@) =~= items_read(all));
    Ok(items)
}

/// A copy of items.
fn copy_items(items: &Vec<Item>) -> (copy: Vec<Item>)
    ensures
        copy@ == items@,
{
    let mut copy: Vec<Item> = Vec::new();
    let mut i: usize = 0;
    while i < items.len()
        invariant
            i <= items@.len(),
            copy@ =~= items@.take(i as int),
        decreases items@.len() - i,
    {
        copy.push(items[i]);
        i += 1;
    }
    copy
}

impl<'a, F, P, W> Scroll<'a, F, P, W> {
    /// Whether `event` is what the scroll waits for.
    pub fn is_awaiting(&self, event: &Event) -> (awaited: bool)
        requires
            event matches Event::Records(Ok(records)) ==> records.wf(),
        ensures
            awaited == self.awaits(event),
    {
        match (self, event) {
            (Scroll::ReadIds { .. }, Event::Ids(_)) => true,
            (Scroll::ReadItems { .. }, Event::Items(_)) => true,
            (Scroll::ReadRandom { .. }, Event::Random(Ok(reads))) => is_weighted(reads),
            (Scroll::ReadRandom { .. }, Event::Random(Err(_))) => true,
            (Scroll::Toss { .. }, Event::Tossed(_)) => true,
            (Scroll::Retrieve { .. }, Event::Records(_)) => true,
            _ => false,
        }
    }

    /// The scroll that goes on with a selection of points.
    fn with_draw(selection: Selection<'a, F, P, W>, draw: RandomDraw) -> (scroll: Self)
        requires
            draw@.wf(),
        ensures
            scroll.wf(),
            scroll.draws(selection, draw@),
    {
        if draw.is_finished() {
            let ids = draw.into_points();
            Scroll::Retrieve { selection, ids, arrangement: Arrangement::Any }
        } else {
            Scroll::Toss { selection, draw }
        }
    }

    /// Goes on with what came of what the scroll waited for. If the items that
    /// were read from each segment are in order, those of the page are the
    /// first of all in that order.
    pub fn resume(self, event: Event) -> (after: Self)
        requires
            self.wf(),
            self.awaits(&event),
        ensures
            after.wf(),
            follows(self, event, after),
            retrieves_first_items(self, event, after),
            retrieves_read_items(self, event, after),
    {
        match (self, event) {
            (
                Scroll::ReadIds { selection, offset, limit, segments: _, rest, reads },
                Event::Ids(result),
            ) => {
                let more = match result {
                    Ok(more) => more,
                    Err(error) => {
                        return Scroll::Done(Err(error));
                    },
                };
                let mut reads = reads;
                let mut more = more;
                reads.append(&mut more);
                match rest {
                    Some(next) => Scroll::ReadIds {
                        selection,
                        offset,
                        limit,
                        segments: next,
                        rest: None,
                        reads,
                    },
                    None => {
                        let ids = merge_point_ids(&reads, limit);
                        Scroll::Retrieve { selection, ids, arrangement: Arrangement::Ids }
                    },
                }
            },
            (
                Scroll::ReadItems { selection, order_by, limit, segments: _, rest, results },
                Event::Items(result),
            ) => {
                let more = match result {
                    Ok(more) => more,
                    Err(error) => {
                        return Scroll::Done(Err(error));
                    },
                };
                let mut results = results;
                let mut more = more;
                results.append(&mut more);
                match rest {
                    Some(next) => Scroll::ReadItems {
                        selection,
                        order_by,
                        limit,
                        segments: next,
                        rest: None,
                        results,
                    },
                    None => match collect_items(results) {
                        Ok(items) => {
                            proof {
                                let reads = seq_view(items@);
                                if reads_in_order(reads, order_by.direction) {
                                    assert forall|i: int| 0 <= i < items@.len() implies sorted_by(
                                        (#[trigger] items@[i])@,
                                        item_order(order_by.direction),
                                    ) by {
                                        assert(sorted_by(reads[i], item_order(order_by.direction)));
                                    }
                                }
                            }
                            let (values, ids) = merge_ordered(&items, order_by.direction, limit);
                            let ghost page = merged_page(
                                seq_view(items@),
                                order_by.direction,
                                limit as nat,
                            );
                            let after = Scroll::Retrieve {
                                selection,
                                ids,
                                arrangement: Arrangement::Values(values),
                            };
                            assert(after.retrieves_items(selection, page));
                            after
                        },
                        Err(error) => Scroll::Done(Err(error)),
                    },
                }
            },
            (Scroll::ReadRandom { selection, limit, segments: _ }, Event::Random(result)) => {
                match result {
                    Ok(reads) => {
                        let draw = RandomDraw::new(reads, limit);
                        Scroll::with_draw(selection, draw)
                    },
                    Err(error) => Scroll::Done(Err(error)),
                }
            },
            (Scroll::Toss { selection, draw }, Event::Tossed(heads)) => {
                let mut draw = draw;
                draw.toss(heads);
                Scroll::with_draw(selection, draw)
            },
            (Scroll::Retrieve { selection: _, ids, arrangement }, Event::Records(result)) => {
                match result {
                    Ok(records) => {
                        let page = match arrangement {
                            Arrangement::Ids => Page::Records(records.in_order_of(&ids)),
                            Arrangement::Values(values) => Page::Ordered(
                                records.in_order_of(&ids),
                                values,
                            ),
                            Arrangement::Any => Page::Records(records.into_values()),
                        };
                        Scroll::Done(Ok(page))
                    },
                    Err(error) => Scroll::Done(Err(error)),
                }
            },
            (scroll, _) => {
                assert(false);
                scroll
            },
        }
    }
}

/// Whether `scroll` is the start of a scroll by id.
pub open spec fn starts_by_id<'a, F, P, W>(
    shard: LocalShard,
    offset: Option<ExtendedPointId>,
    limit: usize,
    with_payload: &'a P,
    with_vector: &'a W,
    filter: Option<&'a F>,
    scroll: Scroll<'a, F, P, W>,
) -> bool {
    match scroll {
        Scroll::ReadIds { selection, offset: o, limit: l, segments, rest: Some(rest), reads } => {
            &&& selection == (Selection { filter, with_payload, with_vector })
            &&& o == offset
            &&& l == limit
            &&& segments@ == shard.non_appendable@
            &&& rest@ == shard.appendable@
            &&& reads@.len() == 0
        },
        _ => false,
    }
}

/// Whether `scroll` is the start of a scroll by field.
pub open spec fn starts_by_field<'a, F, P, W>(
    shard: LocalShard,
    limit: usize,
    with_payload: &'a P,
    with_vector: &'a W,
    filter: Option<&'a F>,
    order_by: &'a OrderBy,
    scroll: Scroll<'a, F, P, W>,
) -> bool {
    match scroll {
        Scroll::ReadItems {
            selection,
            order_by: b,
            limit: l,
            segments,
            rest: Some(rest),
            results,
        } => {
            &&& selection == (Selection { filter, with_payload, with_vector })
            &&& b == order_by
            &&& l == limit
            &&& segments@ == shard.non_appendable@
            &&& rest@ == shard.appendable@
            &&& results@.len() == 0
        },
        _ => false,
    }
}

/// Whether `scroll` is the start of a random scroll.
pub open spec fn starts_randomly<'a, F, P, W>(
    shard: LocalShard,
    limit: usize,
    with_payload: &'a P,
    with_vector: &'a W,
    filter: Option<&'a F>,
    scroll: Scroll<'a, F, P, W>,
) -> bool {
    match scroll {
        Scroll::ReadRandom { selection, limit: l, segments } => {
            &&& selection == (Selection { filter, with_payload, with_vector })
            &&& l == limit
            &&& segments@ == shard.non_appendable@ + shard.appendable@
        },
        _ => false,
    }
}

/// The filter of a request.
pub open spec fn filter_of<F, P, W>(request: &QueryScrollRequestInternal<F, P, W>) -> Option<&F> {
    match request.filter {
        Some(filter) => Some(&filter),
        None => None,
    }
}

/// Whether `scroll` is the start of the scroll that `request` asks for.
pub open spec fn starts_query<'a, F, P, W>(
    shard: LocalShard,
    request: &'a QueryScrollRequestInternal<F, P, W>,
    scroll: Scroll<'a, F, P, W>,
) -> bool {
    match request.scroll_order {
        ScrollOrder::ById => starts_by_id(
            shard,
            None,
            request.limit,
            &request.with_payload,
            &request.with_vector,
            filter_of(request),
            scroll,
        ),
        ScrollOrder::ByField(order_by) => starts_by_field(
            shard,
            request.limit,
            &request.with_payload,
            &request.with_vector,
            filter_of(request),
            &order_by,
            scroll,
        ),
        ScrollOrder::Random => starts_randomly(
            shard,
            request.limit,
            &request.with_payload,
            &request.with_vector,
            filter_of(request),
            scroll,
        ),
    }
}

/// A copy of the numbers of segments.
fn copy_segments(segments: &Vec<u64>) -> (copy: Vec<u64>)
    ensures
        copy@ == segments@,
{
    let copy = segments.clone();
    assert(copy@ =~= segments@);
    copy
}

impl LocalShard {
    /// Starts a scroll through the points in ascending order of their ids: the
    /// first `limit` points from `offset` on.
    pub fn scroll_by_id<'a, F, P, W>(
        &self,
        offset: Option<ExtendedPointId>,
        limit: usize,
        with_payload: &'a P,
        with_vector: &'a W,
        filter: Option<&'a F>,
    ) -> (scroll: Scroll<'a, F, P, W>)
        ensures
            scroll.wf(),
            starts_by_id(*self, offset, limit, with_payload, with_vector, filter, scroll),
    {
        Scroll::ReadIds {
            selection: Selection { filter, with_payload, with_vector },
            offset,
            limit,
            segments: copy_segments(&self.non_appendable),
            rest: Some(copy_segments(&self.appendable)),
            reads: Vec::new(),
        }
    }

    /// Starts a scroll through the points in the order of the values of a
    /// field: the first `limit` points.
    pub fn scroll_by_field<'a, F, P, W>(
        &self,
        limit: usize,
        with_payload: &'a P,
        with_vector: &'a W,
        filter: Option<&'a F>,
        order_by: &'a OrderBy,
    ) -> (scroll: Scroll<'a, F, P, W>)
        ensures
            scroll.wf(),
            starts_by_field(*self, limit, with_payload, with_vector, filter, order_by, scroll),
    {
        Scroll::ReadItems {
            selection: Selection { filter, with_payload, with_vector },
            order_by,
            limit,
            segments: copy_segments(&self.non_appendable),
            rest: Some(copy_segments(&self.appendable)),
            results: Vec::new(),
        }
    }

    /// Starts a scroll through `limit` random points, selected from each
    /// segment in proportion to how many points it has.
    pub fn scroll_randomly<'a, F, P, W>(
        &self,
        limit: usize,
        with_payload: &'a P,
        with_vector: &'a W,
        filter: Option<&'a F>,
    ) -> (scroll: Scroll<'a, F, P, W>)
        ensures
            scroll.wf(),
            starts_randomly(*self, limit, with_payload, with_vector, filter, scroll),
    {
        let mut segments = copy_segments(&self.non_appendable);
        let mut appendable = copy_segments(&self.appendable);
        segments.append(&mut appendable);
        Scroll::ReadRandom {
            selection: Selection { filter, with_payload, with_vector },
            limit,
            segments,
        }
    }

    /// Starts the scroll through a single page that `request` asks for.
    pub fn query_scroll<'a, F, P, W>(
        &self,
        request: &'a QueryScrollRequestInternal<F, P, W>,
    ) -> (scroll: Scroll<'a, F, P, W>)
        ensures
            scroll.wf(),
            starts_query(*self, request, scroll),
    {
        let filter = match &request.filter {
            Some(filter) => Some(filter),
            None => None,
        };
        match &request.scroll_order {
            ScrollOrder::ById => self.scroll_by_id(
                None,
                request.limit,
                &request.with_payload,
                &request.with_vector,
                filter,
            ),
            ScrollOrder::ByField(order_by) => self.scroll_by_field(
                request.limit,
                &request.with_payload,
                &request.with_vector,
                filter,
                order_by,
            ),
            ScrollOrder::Random => self.scroll_randomly(
                request.limit,
                &request.with_payload,
                &request.with_vector,
                filter,
            ),
        }
    }

    /// Starts the scrolls that the requests of a batch ask for.
    pub fn query_scroll_batch<'a, F, P, W>(
        &self,
        batch: &'a Vec<QueryScrollRequestInternal<F, P, W>>,
    ) -> (scrolls: Vec<Scroll<'a, F, P, W>>)
        ensures
            scrolls@.len() == batch@.len(),
            forall|i: int|
                0 <= i < batch@.len() ==> (#[trigger] scrolls@[i]).wf() && starts_query(
                    *self,
                    &batch@[i],
                    scrolls@[i],
                ),
    {
        let mut scrolls: Vec<Scroll<'a, F, P, W>> = Vec::new();
        let mut i: usize = 0;
        while i < batch.len()
            invariant
                i <= batch@.len(),
                scrolls@.len() == i,
                forall|j: int|
                    0 <= j < i ==> (#[trigger] scrolls@[j]).wf() && starts_query(
                        *self,
                        &batch@[j],
                        scrolls@[j],
                    ),
            decreases batch@.len() - i,
        {
            scrolls.push(self.query_scroll(&batch[i]));
            i += 1;
        }
        scrolls
    }
}

/// A record as a point that a query found, with the value that it was ordered
/// by. Scrolled points have version and score zero.
pub open spec fn scrolled_point(
    record: RecordView,
    order_value: Option<OrderValue>,
) -> ScoredPointView {
    ScoredPointView {
        id: record.id,
        version: 0,
        score_bits: 0,
        payload: record.payload,
        vector: record.vector,
        shard_key: record.shard_key,
        order_value,
    }
}

/// The points of a page. A page that is ordered by a field gives its records
/// and its values in pairs, as far as both go.
pub open spec fn points_of_page(page: Page) -> Seq<ScoredPointView> {
    match page {
        Page::Records(records) => seq_view(records@).map_values(
            |record: RecordView| scrolled_point(record, None),
        ),
        Page::Ordered(records, values) => Seq::new(
            if records@.len() <= values@.len() {
                records@.len()
            } else {
                values@.len()
            },
            |i: int| scrolled_point(records@[i]@, Some(values@[i])),
        ),
    }
}

/// A record as a point that a query found.
fn scored_point(record: &Record, order_value: Option<OrderValue>) -> (point: ScoredPoint)
    ensures
        point@ == scrolled_point(record@, order_value),
{
    let record = record.clone();
    ScoredPoint {
        id: record.id,
        version: 0,
        score_bits: 0,
        payload: record.payload,
        vector: record.vector,
        shard_key: record.shard_key,
        order_value,
    }
}

/// The points that a query finds when its scroll is over, or the error with
/// which the scroll failed.
pub fn query_points(done: CollectionResult<Page>) -> (points: CollectionResult<Vec<ScoredPoint>>)
    ensures
        match done {
            Ok(page) => points is Ok && seq_view(points->Ok_0@) == points_of_page(page),
            Err(error) => points == Err::<Vec<ScoredPoint>, CollectionError>(error),
        },
{
    let page = match done {
        Ok(page) => page,
        Err(error) => {
            return Err(error);
        },
    };
    let mut points: Vec<ScoredPoint> = Vec::new();
    match &page {
        Page::Records(records) => {
            let mut i: usize = 0;
            while i < records.len()
                invariant
                    i <= records@.len(),
                    points@.len() == i,
                    forall|j: int|
                        0 <= j < i ==> #[trigger] points@[j]@ == scrolled_point(records@[j]@, None),
                decreases records@.len() - i,
            {
                points.push(scored_point(&records[i], None));
                i += 1;
            }
        },
        Page::Ordered(records, values) => {
            let mut i: usize = 0;
            while i < records.len() && i < values.len()
                invariant
                    i <= records@.len(),
                    i <= values@.len(),
                    points@.len() == i,
                    forall|j: int|
                        0 <= j < i ==> #[trigger] points@[j]@ == scrolled_point(
                            records@[j]@,
                            Some(values@[j]),
                        ),
                decreases records@.len() - i,
            {
                points.push(scored_point(&records[i], Some(values[i])));
                i += 1;
            }
        },
    }
    assert(seq_view(points@) =~= points_of_page(page));
    Ok(points)
}

/// The result of a batch of scrolls: what came of them all, or, if they took
/// longer than `timeout_secs` seconds, the error that tells so.
pub fn batch_result(
    joined: Option<CollectionResult<Vec<Vec<ScoredPoint>>>>,
    timeout_secs: u64,
) -> (result: CollectionResult<Vec<Vec<ScoredPoint>>>)
    ensures
        match joined {
            Some(outcome) => result == outcome,
            None => result is Err && result->Err_0.is_timeout(
                timeout_secs as usize,
                "Query scroll"@,
            ),
        },
{
    match joined {
        Some(outcome) => outcome,
        None => Err(CollectionError::timeout(timeout_secs as usize, "Query scroll")),
    }
}

} // verus!
