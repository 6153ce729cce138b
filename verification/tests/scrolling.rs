use shard_query::error::CollectionError;
use shard_query::json::{Payload, Value};
use shard_query::order::{first_distinct, merge_items, merge_ordered, merge_point_ids, precedes};
use shard_query::order::{Direction, Item};
use shard_query::point::{ExtendedPointId, OrderValue, Record, ScoredPoint, ShardKey, VectorStruct};
use shard_query::random::{count_points, is_weighted, RandomDraw, RandomRead};
use shard_query::records::RecordMap;
use shard_query::scroll::{batch_result, query_points, Arrangement, Event, LocalShard, OrderBy};
use shard_query::scroll::{Page, QueryScrollRequestInternal, Scroll, ScrollOrder};

type Request = QueryScrollRequestInternal<&'static str, bool, bool>;
type Started<'a> = Scroll<'a, &'static str, bool, bool>;

fn num(id: u64) -> ExtendedPointId {
    ExtendedPointId::NumId(id)
}

fn uuid(bits: u128) -> ExtendedPointId {
    ExtendedPointId::Uuid(bits)
}

fn nums(ids: &[u64]) -> Vec<ExtendedPointId> {
    ids.iter().map(|id| num(*id)).collect()
}

fn item(rank: i128, id: u64) -> Item {
    (OrderValue { rank }, num(id))
}

fn ranks(values: &Vec<OrderValue>) -> Vec<i128> {
    values.iter().map(|v| v.rank).collect()
}

fn record(id: u64) -> Record {
    Record {
        id: num(id),
        payload: Some(Payload { entries: vec![("n".to_string(), Value::Bool(id % 2 == 0))] }),
        vector: Some(VectorStruct::Named(vec![("v".to_string(), vec![1, 2])])),
        shard_key: Some(ShardKey::Keyword("k".to_string())),
    }
}

fn records(ids: &[u64]) -> RecordMap {
    let mut map = RecordMap::new();
    for id in ids {
        map.insert(num(*id), record(*id));
    }
    map
}

fn shard() -> LocalShard {
    LocalShard { non_appendable: vec![10, 11], appendable: vec![12] }
}

fn request(limit: usize, scroll_order: ScrollOrder) -> Request {
    QueryScrollRequestInternal {
        limit,
        with_vector: true,
        filter: Some("wanted"),
        scroll_order,
        with_payload: false,
    }
}

fn by_field(direction: Direction) -> ScrollOrder {
    ScrollOrder::ByField(OrderBy { key: "price".to_string(), direction })
}

fn error(text: &str) -> CollectionError {
    CollectionError::ServiceError { error: text.to_string() }
}

#[test]
fn ids_are_sorted_without_repeats_up_to_the_limit() {
    let reads = vec![nums(&[5, 1, 3]), nums(&[3, 2]), vec![uuid(0), num(9)], vec![]];
    assert_eq!(merge_point_ids(&reads, 4), nums(&[1, 2, 3, 5]));
    assert_eq!(
        merge_point_ids(&reads, 100),
        vec![num(1), num(2), num(3), num(5), num(9), uuid(0)]
    );
    assert_eq!(merge_point_ids(&reads, 0), vec![]);
    assert_eq!(merge_point_ids(&vec![], 3), vec![]);
}

#[test]
fn uuids_come_after_numbers_in_the_order_of_their_bits() {
    let reads = vec![vec![uuid(u128::MAX), uuid(1), num(u64::MAX)]];
    assert_eq!(merge_point_ids(&reads, 3), vec![num(u64::MAX), uuid(1), uuid(u128::MAX)]);
    let mut by_derive = vec![uuid(u128::MAX), uuid(1), num(u64::MAX)];
    by_derive.sort();
    assert_eq!(merge_point_ids(&reads, 3), by_derive);
}

#[test]
fn a_page_of_ids_does_not_depend_on_the_segments() {
    let a = vec![nums(&[1, 4]), nums(&[2])];
    let b = vec![nums(&[2, 4, 4, 1])];
    assert_eq!(merge_point_ids(&a, 2), merge_point_ids(&b, 2));
}

#[test]
fn the_first_ids_of_each_segment_suffice() {
    let contents = vec![nums(&[1, 4, 6, 8]), nums(&[2, 3, 9])];
    let reads = vec![nums(&[1, 4]), nums(&[2, 3])];
    assert_eq!(merge_point_ids(&reads, 2), merge_point_ids(&contents, 2));
}

#[test]
fn pages_of_ids_follow_each_other() {
    let reads = vec![nums(&[6, 1, 4]), nums(&[2, 4, 9])];
    let first = merge_point_ids(&reads, 2);
    assert_eq!(first, nums(&[1, 2]));
    let later: Vec<Vec<ExtendedPointId>> = reads
        .iter()
        .map(|read| read.iter().filter(|id| !first.contains(id)).copied().collect())
        .collect();
    let second = merge_point_ids(&later, 2);
    assert_eq!(second, nums(&[4, 6]));
    let both: Vec<ExtendedPointId> = first.into_iter().chain(second).collect();
    assert_eq!(both, merge_point_ids(&reads, 4));
}

#[test]
fn pages_of_ids_chain_by_an_offset() {
    let reads = vec![nums(&[6, 1, 4]), nums(&[2, 4, 9])];
    let offset = *merge_point_ids(&reads, 3).last().unwrap();
    assert_eq!(offset, num(4));
    let later: Vec<Vec<ExtendedPointId>> = reads
        .iter()
        .map(|read| read.iter().filter(|id| **id >= offset).copied().collect())
        .collect();
    let mut both = merge_point_ids(&reads, 2);
    both.extend(merge_point_ids(&later, 3));
    assert_eq!(both, nums(&[1, 2, 4, 6, 9]));
    assert_eq!(both, merge_point_ids(&reads, 5));
}

#[test]
fn items_are_merged_in_ascending_order() {
    let reads = vec![
        vec![item(1, 7), item(3, 1), item(3, 2)],
        vec![item(-2, 5), item(3, 1), item(4, 0)],
    ];
    let merged = merge_items(&reads, Direction::Asc);
    assert_eq!(
        merged,
        vec![item(-2, 5), item(1, 7), item(3, 1), item(3, 1), item(3, 2), item(4, 0)]
    );
    let (values, ids) = merge_ordered(&reads, Direction::Asc, 4);
    assert_eq!(ranks(&values), vec![-2, 1, 3, 3]);
    assert_eq!(ids, nums(&[5, 7, 1, 2]));
}

#[test]
fn items_are_merged_in_descending_order() {
    let reads = vec![
        vec![item(9, 1), item(3, 2), item(3, 1)],
        vec![item(3, 2), item(0, 8)],
        vec![],
    ];
    let (values, ids) = merge_ordered(&reads, Direction::Desc, 10);
    assert_eq!(ranks(&values), vec![9, 3, 3, 0]);
    assert_eq!(ids, nums(&[1, 2, 1, 8]));
}

#[test]
fn descending_reverses_ascending() {
    let ascending = vec![vec![item(1, 2), item(3, 1), item(3, 2)], vec![item(0, 9), item(3, 1)]];
    let descending: Vec<Vec<Item>> =
        ascending.iter().map(|read| read.iter().rev().copied().collect()).collect();
    let (mut values, mut ids) = merge_ordered(&ascending, Direction::Asc, 4);
    assert_eq!(ids, nums(&[9, 2, 1, 2]));
    values.reverse();
    ids.reverse();
    assert_eq!(merge_ordered(&descending, Direction::Desc, 4), (values, ids));
}

#[test]
fn a_point_may_come_with_several_values() {
    let reads = vec![vec![item(1, 7), item(2, 7)]];
    let (values, ids) = merge_ordered(&reads, Direction::Asc, 10);
    assert_eq!(ranks(&values), vec![1, 2]);
    assert_eq!(ids, nums(&[7, 7]));
}

#[test]
fn the_first_items_of_each_segment_suffice() {
    let contents = vec![
        vec![item(9, 1), item(5, 2), item(4, 3)],
        vec![item(8, 4), item(7, 5), item(1, 6)],
    ];
    let reads = vec![vec![item(9, 1), item(5, 2)], vec![item(8, 4), item(7, 5)]];
    assert_eq!(
        merge_ordered(&reads, Direction::Desc, 2),
        merge_ordered(&contents, Direction::Desc, 2)
    );
    assert_eq!(merge_ordered(&reads, Direction::Desc, 2).1, nums(&[1, 4]));
}

#[test]
fn only_neighbouring_repeats_are_removed() {
    let merged = vec![item(1, 1), item(1, 1), item(2, 1), item(1, 1), item(1, 1)];
    let (values, ids) = first_distinct(&merged, 3);
    assert_eq!(ranks(&values), vec![1, 2, 1]);
    assert_eq!(ids, nums(&[1, 1, 1]));
    let (values, _) = first_distinct(&merged, 1);
    assert_eq!(ranks(&values), vec![1]);
    let (values, ids) = first_distinct(&vec![], 1);
    assert!(values.is_empty() && ids.is_empty());
}

#[test]
fn keys_are_ordered_as_triples() {
    assert!(precedes(true, &(0, 0, 0), &(0, 0, 0)));
    assert!(precedes(false, &(0, 0, 0), &(0, 0, 0)));
    assert!(precedes(true, &(-1, 1, 9), &(0, 0, 0)));
    assert!(!precedes(false, &(-1, 1, 9), &(0, 0, 0)));
    assert!(precedes(true, &(0, 0, 9), &(0, 1, 0)));
    assert!(!precedes(true, &(0, 0, 9), &(0, 0, 8)));
}

#[test]
fn records_come_in_the_order_of_ids() {
    let map = records(&[3, 1, 2]);
    let found = map.in_order_of(&nums(&[2, 9, 1, 2]));
    assert_eq!(found, vec![record(2), record(1), record(2)]);
    assert_eq!(map.get(num(3)), Some(&record(3)));
    assert_eq!(map.get(num(9)), None);
    let mut all: Vec<ExtendedPointId> = map.into_values().into_iter().map(|r| r.id).collect();
    all.sort();
    assert_eq!(all, nums(&[1, 2, 3]));
}

#[test]
fn a_record_replaces_the_one_under_its_id() {
    let mut map = records(&[1]);
    assert_eq!(map.insert(num(1), record(2)), Some(record(1)));
    assert_eq!(map.insert(num(2), record(2)), None);
    assert_eq!(map.get(num(1)), Some(&record(2)));
}

#[test]
fn a_scroll_by_id_from_start_to_end() {
    let shard = shard();
    let start: Started = shard.scroll_by_id(Some(num(1)), 3, &false, &true, Some(&"f"));
    match &start {
        Scroll::ReadIds { selection, offset, limit, segments, rest, reads } => {
            assert_eq!(selection.filter, Some(&"f"));
            assert_eq!((*selection.with_payload, *selection.with_vector), (false, true));
            assert_eq!((*offset, *limit), (Some(num(1)), 3));
            assert_eq!(*segments, vec![10, 11]);
            assert_eq!(*rest, Some(vec![12]));
            assert!(reads.is_empty());
        }
        _ => panic!("a scroll by id starts with ids"),
    }
    let event = Event::Ids(Ok(vec![nums(&[4, 2]), nums(&[6])]));
    assert!(start.is_awaiting(&event));
    let middle = start.resume(event);
    match &middle {
        Scroll::ReadIds { offset, limit, segments, rest, .. } => {
            assert_eq!((*offset, *limit), (Some(num(1)), 3));
            assert_eq!(*segments, vec![12]);
            assert_eq!(*rest, None);
        }
        _ => panic!("the appendable segments come next"),
    }
    let last = middle.resume(Event::Ids(Ok(vec![nums(&[2, 3])])));
    match &last {
        Scroll::Retrieve { ids, arrangement, .. } => {
            assert_eq!(*ids, nums(&[2, 3, 4]));
            assert!(matches!(arrangement, Arrangement::Ids));
        }
        _ => panic!("the records come next"),
    }
    let end = last.resume(Event::Records(Ok(records(&[4, 2]))));
    assert!(!end.is_awaiting(&Event::Tossed(true)));
    match end {
        Scroll::Done(Ok(Page::Records(found))) => assert_eq!(found, vec![record(2), record(4)]),
        _ => panic!("the scroll is over"),
    }
}

fn query_by_field(direction: Direction, found: &[u64]) -> Vec<ScoredPoint> {
    let request = request(3, by_field(direction));
    let shard = shard();
    let scroll = shard.query_scroll(&request);
    match &scroll {
        Scroll::ReadItems { selection, order_by, limit, segments, rest, .. } => {
            assert_eq!(selection.filter, Some(&"wanted"));
            assert_eq!(order_by.key, "price");
            assert_eq!(*limit, 3);
            assert_eq!((segments, rest), (&vec![10, 11], &Some(vec![12])));
        }
        _ => panic!("a scroll by field starts with items"),
    }
    let (first, second) = match direction {
        Direction::Asc => (
            vec![Ok(vec![item(1, 5), item(7, 2)]), Ok(vec![item(2, 9)])],
            vec![Ok(vec![item(2, 9), item(3, 4)])],
        ),
        Direction::Desc => (
            vec![Ok(vec![item(7, 2), item(1, 5)]), Ok(vec![item(2, 9)])],
            vec![Ok(vec![item(3, 4), item(2, 9)])],
        ),
    };
    let scroll = scroll.resume(Event::Items(Ok(first)));
    let scroll = scroll.resume(Event::Items(Ok(second)));
    let end = scroll.resume(Event::Records(Ok(records(found))));
    match end {
        Scroll::Done(done) => query_points(done).unwrap(),
        _ => panic!("the scroll is over"),
    }
}

fn ids_and_ranks(points: &Vec<ScoredPoint>) -> Vec<(ExtendedPointId, Option<i128>)> {
    points.iter().map(|p| (p.id, p.order_value.map(|v| v.rank))).collect()
}

#[test]
fn a_query_by_field_gives_points_with_their_values() {
    let points = query_by_field(Direction::Asc, &[4, 5, 9, 2]);
    assert_eq!(
        ids_and_ranks(&points),
        vec![(num(5), Some(1)), (num(9), Some(2)), (num(4), Some(3))]
    );
    let points = query_by_field(Direction::Desc, &[4, 5, 9, 2]);
    assert_eq!(
        ids_and_ranks(&points),
        vec![(num(2), Some(7)), (num(4), Some(3)), (num(9), Some(2))]
    );
    for point in points {
        assert_eq!(point.version, 0);
        assert_eq!(point.score_bits, 0.0f32.to_bits());
        assert!(point.payload.is_some() && point.vector.is_some());
        assert_eq!(point.shard_key, Some(ShardKey::Keyword("k".to_string())));
    }
}

#[test]
fn values_and_records_are_paired_by_place() {
    // the record of the first point is gone
    let points = query_by_field(Direction::Asc, &[4, 9]);
    assert_eq!(ids_and_ranks(&points), vec![(num(9), Some(1)), (num(4), Some(2))]);
}

#[test]
fn a_failed_read_ends_a_scroll_by_field() {
    let request = request(3, by_field(Direction::Asc));
    let shard = shard();
    let scroll = shard.query_scroll(&request);
    let scroll = scroll.resume(Event::Items(Ok(vec![Ok(vec![]), Err(error("first"))])));
    // the appendable segments are read all the same
    assert!(matches!(scroll, Scroll::ReadItems { .. }));
    let scroll = scroll.resume(Event::Items(Ok(vec![Err(error("second"))])));
    match scroll {
        Scroll::Done(done) => assert_eq!(query_points(done), Err(error("first"))),
        _ => panic!("the scroll has failed"),
    }
}

#[test]
fn an_error_ends_a_scroll() {
    let shard = shard();
    let by_id = request(3, ScrollOrder::ById);
    let by_price = request(3, by_field(Direction::Asc));
    let random = request(3, ScrollOrder::Random);
    let failures: Vec<(Started, Event)> = vec![
        (shard.query_scroll(&by_id), Event::Ids(Err(error("x")))),
        (shard.query_scroll(&by_price), Event::Items(Err(error("x")))),
        (shard.query_scroll(&random), Event::Random(Err(error("x")))),
        (
            shard
                .query_scroll(&by_id)
                .resume(Event::Ids(Ok(vec![])))
                .resume(Event::Ids(Ok(vec![]))),
            Event::Records(Err(error("x"))),
        ),
    ];
    for (scroll, event) in failures {
        assert!(scroll.is_awaiting(&event));
        match scroll.resume(event) {
            Scroll::Done(Err(e)) => assert_eq!(e, error("x")),
            _ => panic!("the scroll has failed"),
        }
    }
}

#[test]
fn a_query_by_id_has_no_offset_and_no_order_values() {
    let request = request(2, ScrollOrder::ById);
    let shard = shard();
    let scroll = shard.query_scroll(&request);
    match &scroll {
        Scroll::ReadIds { offset, limit, .. } => assert_eq!((*offset, *limit), (None, 2)),
        _ => panic!("a query by id starts with ids"),
    }
    let scroll = scroll.resume(Event::Ids(Ok(vec![nums(&[3]), nums(&[1])])));
    let scroll = scroll.resume(Event::Ids(Ok(vec![nums(&[2])])));
    match scroll.resume(Event::Records(Ok(records(&[1, 2, 3])))) {
        Scroll::Done(done) => assert_eq!(
            ids_and_ranks(&query_points(done).unwrap()),
            vec![(num(1), None), (num(2), None)]
        ),
        _ => panic!("the scroll is over"),
    }
}

fn reads() -> Vec<RandomRead> {
    vec![(6, nums(&[1, 2])), (2, nums(&[])), (4, nums(&[7]))]
}

#[test]
fn points_are_counted() {
    assert_eq!(count_points(&reads()), Some(12));
    assert_eq!(count_points(&vec![]), Some(0));
    assert_eq!(count_points(&vec![(usize::MAX, vec![]), (1, vec![])]), None);
}

#[test]
fn a_selection_goes_round_the_segments() {
    let mut draw = RandomDraw::new(reads(), 10);
    assert_eq!(draw.weight(), (6, 12));
    draw.toss(false);
    assert_eq!(draw.weight(), (2, 12));
    draw.toss(true); // nothing was read from this one
    assert_eq!(draw.weight(), (4, 12));
    draw.toss(true);
    assert_eq!(draw.weight(), (6, 12));
    draw.toss(true);
    assert_eq!(draw.weight(), (4, 12)); // the exhausted segment is skipped
    draw.toss(true);
    assert_eq!(draw.weight(), (6, 12));
    draw.toss(false);
    assert_eq!(draw.weight(), (6, 12)); // the only segment that is left
    assert!(!draw.is_finished());
    draw.toss(true);
    assert!(draw.is_finished()); // no read has points left
    assert_eq!(draw.into_points(), nums(&[7, 2, 1]));
}

#[test]
fn a_selection_ends_at_its_limit() {
    let mut draw = RandomDraw::new(reads(), 2);
    draw.toss(true);
    draw.toss(false);
    assert!(!draw.is_finished());
    draw.toss(true);
    assert!(draw.is_finished());
    assert_eq!(draw.into_points(), nums(&[2, 7]));
}

#[test]
fn a_selection_of_no_points_is_at_its_end() {
    let draw = RandomDraw::new(vec![(1, nums(&[1, 2]))], 0);
    assert!(draw.is_finished());
    assert_eq!(draw.into_points(), vec![]);
}

#[test]
fn a_selection_has_every_point_if_there_are_no_more_than_its_limit() {
    for limit in [2, 3] {
        let mut draw = RandomDraw::new(vec![(1, nums(&[1, 2]))], limit);
        for _ in 0..2 {
            assert!(!draw.is_finished());
            draw.toss(true);
        }
        assert!(draw.is_finished());
        assert_eq!(draw.into_points(), nums(&[2, 1]));
    }
}

#[test]
fn a_selection_from_no_segments_is_at_its_end() {
    let draw = RandomDraw::new(vec![], 5);
    assert!(draw.is_finished());
    assert_eq!(draw.into_points(), vec![]);
}

#[test]
fn a_segment_without_points_does_not_hold_a_selection_up() {
    let mut draw = RandomDraw::new(vec![(3, nums(&[1, 2, 3])), (0, vec![])], 10);
    for _ in 0..3 {
        assert!(!draw.is_finished());
        assert_eq!(draw.weight(), (3, 3));
        draw.toss(true);
        if !draw.is_finished() {
            assert_eq!(draw.weight(), (0, 3));
            draw.toss(false);
        }
    }
    assert!(draw.is_finished());
    let mut points = draw.into_points();
    points.sort();
    assert_eq!(points, nums(&[1, 2, 3]));
}

#[test]
fn a_selection_can_go_on_from_a_segment_without_weight() {
    // the first segment has no weight, the last one has points left
    let mut draw = RandomDraw::new(vec![(0, vec![]), (5, vec![]), (1, nums(&[4]))], 3);
    assert_eq!(draw.weight(), (0, 6));
    draw.toss(false);
    assert_eq!(draw.weight(), (5, 6));
    draw.toss(false);
    assert_eq!(draw.weight(), (1, 6));
    draw.toss(true);
    assert!(draw.is_finished());
    assert_eq!(draw.into_points(), nums(&[4]));
}

#[test]
fn a_selection_from_empty_reads_is_at_its_end() {
    for reads in [vec![(0, vec![]), (0, vec![])], vec![(7, vec![]), (0, vec![])]] {
        let draw = RandomDraw::new(reads, 5);
        assert!(draw.is_finished());
        assert_eq!(draw.into_points(), vec![]);
    }
}

#[test]
fn reads_have_weights() {
    assert!(is_weighted(&vec![]));
    assert!(is_weighted(&reads()));
    assert!(is_weighted(&vec![(0, vec![]), (0, vec![])]));
    assert!(is_weighted(&vec![(0, nums(&[1])), (1, vec![])]));
    assert!(!is_weighted(&vec![(0, vec![]), (0, nums(&[1]))]));
    assert!(!is_weighted(&vec![(usize::MAX, vec![]), (1, vec![])]));
}

#[test]
fn a_random_scroll_from_start_to_end() {
    let request = request(2, ScrollOrder::Random);
    let shard = shard();
    let scroll = shard.query_scroll(&request);
    match &scroll {
        Scroll::ReadRandom { limit, segments, .. } => {
            assert_eq!((*limit, segments), (2, &vec![10, 11, 12]));
        }
        _ => panic!("a random scroll starts with random ids"),
    }
    let mut scroll = scroll.resume(Event::Random(Ok(reads())));
    for heads in [true, false, true] {
        match &scroll {
            Scroll::Toss { draw, .. } => assert_eq!(draw.weight().1, 12),
            _ => panic!("a coin comes next"),
        }
        assert!(scroll.is_awaiting(&Event::Tossed(heads)));
        scroll = scroll.resume(Event::Tossed(heads));
    }
    match &scroll {
        Scroll::Retrieve { ids, arrangement, .. } => {
            assert_eq!(*ids, nums(&[2, 7]));
            assert!(matches!(arrangement, Arrangement::Any));
        }
        _ => panic!("the records come next"),
    }
    match scroll.resume(Event::Records(Ok(records(&[7, 2])))) {
        Scroll::Done(done) => {
            let mut ids: Vec<ExtendedPointId> =
                query_points(done).unwrap().into_iter().map(|p| p.id).collect();
            ids.sort();
            assert_eq!(ids, nums(&[2, 7]));
        }
        _ => panic!("the scroll is over"),
    }
}

#[test]
fn segments_without_points_have_no_weight() {
    let request = request(2, ScrollOrder::Random);
    let shard = shard();
    let scroll = shard.query_scroll(&request);
    assert!(!scroll.is_awaiting(&Event::Random(Ok(vec![(0, nums(&[1]))]))));
    assert!(!scroll.is_awaiting(&Event::Random(Ok(vec![(usize::MAX, vec![]), (1, vec![])]))));
    assert!(!scroll.is_awaiting(&Event::Ids(Ok(vec![]))));
    assert!(scroll.is_awaiting(&Event::Random(Ok(vec![]))));
    match scroll.resume(Event::Random(Ok(vec![]))) {
        Scroll::Retrieve { ids, .. } => assert!(ids.is_empty()),
        _ => panic!("there is nothing to select"),
    }
}

#[test]
fn a_random_scroll_for_no_points_gives_none() {
    let request = request(0, ScrollOrder::Random);
    let shard = shard();
    let scroll = shard.query_scroll(&request);
    let scroll = scroll.resume(Event::Random(Ok(vec![(1, nums(&[1]))])));
    match &scroll {
        Scroll::Retrieve { ids, .. } => assert!(ids.is_empty()),
        _ => panic!("no coin is needed"),
    }
    match scroll.resume(Event::Records(Ok(records(&[])))) {
        Scroll::Done(done) => assert_eq!(query_points(done), Ok(vec![])),
        _ => panic!("the scroll is over"),
    }
}

#[test]
fn a_random_scroll_over_empty_segments_gives_no_points() {
    let request = request(2, ScrollOrder::Random);
    let shard = shard();
    let scroll = shard.query_scroll(&request);
    let event = Event::Random(Ok(vec![(0, vec![]), (0, vec![]), (0, vec![])]));
    assert!(scroll.is_awaiting(&event));
    let scroll = scroll.resume(event);
    match &scroll {
        Scroll::Retrieve { ids, .. } => assert!(ids.is_empty()),
        _ => panic!("there is nothing to select"),
    }
    match scroll.resume(Event::Records(Ok(records(&[])))) {
        Scroll::Done(done) => assert_eq!(query_points(done), Ok(vec![])),
        _ => panic!("the scroll is over"),
    }
}

#[test]
fn a_batch_starts_one_scroll_for_each_request() {
    let batch = vec![
        request(1, ScrollOrder::ById),
        request(2, by_field(Direction::Desc)),
        request(3, ScrollOrder::Random),
    ];
    let shard = shard();
    let scrolls = shard.query_scroll_batch(&batch);
    assert_eq!(scrolls.len(), 3);
    assert!(matches!(&scrolls[0], Scroll::ReadIds { limit: 1, .. }));
    assert!(matches!(&scrolls[1], Scroll::ReadItems { limit: 2, .. }));
    assert!(matches!(&scrolls[2], Scroll::ReadRandom { limit: 3, .. }));
}

#[test]
fn a_batch_that_takes_too_long_times_out() {
    assert_eq!(
        batch_result(None, 60),
        Err(CollectionError::Timeout { seconds: 60, operation: "Query scroll".to_string() })
    );
    assert_eq!(batch_result(Some(Ok(vec![vec![]])), 60), Ok(vec![vec![]]));
    assert_eq!(batch_result(Some(Err(error("x"))), 60), Err(error("x")));
}
