use shard_query::aggregator::GroupsAggregator;
use shard_query::groups::{GroupKey, GroupMap, Hits};
use shard_query::json::{Number, Payload, Value, NEGATIVE_ZERO};
use shard_query::point::{ExtendedPointId, ScoredPoint, VectorStruct};

fn string(text: &str) -> Value {
    Value::String(text.to_string())
}

fn payload(name: &str, value: Value) -> Payload {
    Payload { entries: vec![(name.to_string(), value)] }
}

fn point(id: u64, payload: Option<Payload>) -> ScoredPoint {
    ScoredPoint {
        id: ExtendedPointId::NumId(id),
        version: 0,
        score_bits: 1.0f32.to_bits(),
        payload,
        vector: None,
        shard_key: None,
        order_value: None,
    }
}

fn in_group(id: u64, key: Value) -> ScoredPoint {
    point(id, Some(payload("docId", key)))
}

fn ids_of(hits: &Hits) -> Vec<ExtendedPointId> {
    let mut ids: Vec<ExtendedPointId> = hits.points().iter().map(|p| p.id).collect();
    ids.sort();
    ids
}

fn number(id: u64) -> ExtendedPointId {
    ExtendedPointId::NumId(id)
}

#[test]
fn it_adds_single_points() {
    let mut aggregator = GroupsAggregator::new(3, 2, "docId".to_string());

    // point, key, group size, groups count
    let cases = [
        (in_group(1, string("a")), "a", 1, 1),
        // the same id again
        (in_group(1, string("a")), "a", 1, 1),
        // another point of the same group
        (in_group(2, string("a")), "a", 2, 1),
        // the group is full
        (in_group(3, string("a")), "a", 2, 1),
        (in_group(4, string("b")), "b", 1, 2),
        (in_group(5, string("c")), "c", 1, 3),
        // there are enough groups
        (in_group(6, string("d")), "d", 0, 3),
    ];

    for (point, key, size, groups) in cases {
        aggregator.add_point(&point);

        assert_eq!(aggregator.len(), groups);

        let key = &GroupKey::from(key);
        if size > 0 {
            assert_eq!(aggregator.groups.get(key).unwrap().len(), size);
        } else {
            assert!(aggregator.groups.get(key).is_none());
        }
    }
}

fn hits(points: Vec<ScoredPoint>) -> Hits {
    let mut hits = Hits::new();
    for point in points {
        hits.insert(point);
    }
    hits
}

#[test]
fn hydrate_from() {
    let mut aggregator = GroupsAggregator::new(2, 2, "docId".to_string());

    aggregator.groups.insert(GroupKey::from("a"), hits(vec![point(1, None), point(2, None)]));
    aggregator.groups.insert(GroupKey::from("b"), hits(vec![point(3, None), point(4, None)]));

    let payload_a = payload("some_key", string("some value a"));
    let payload_b = payload("some_key", string("some value b"));

    let hydrated = vec![
        point(1, Some(payload_a.clone())),
        point(2, Some(payload_a.clone())),
        point(3, Some(payload_b.clone())),
        point(4, Some(payload_b.clone())),
    ];

    aggregator.hydrate_from(&hydrated);

    assert_eq!(aggregator.groups.len(), 2);
    assert_eq!(aggregator.groups.get(&GroupKey::from("a")).unwrap().len(), 2);
    assert_eq!(aggregator.groups.get(&GroupKey::from("b")).unwrap().len(), 2);

    let a = aggregator.groups.get(&GroupKey::from("a")).unwrap();
    let b = aggregator.groups.get(&GroupKey::from("b")).unwrap();

    assert!(a.points().iter().all(|x| x.payload == Some(payload_a.clone())));
    assert!(b.points().iter().all(|x| x.payload == Some(payload_b.clone())));
}

#[test]
fn points_without_a_key_are_left_out() {
    let mut aggregator = GroupsAggregator::new(3, 2, "docId".to_string());
    aggregator.add_point(&point(1, None));
    aggregator.add_point(&point(2, Some(payload("other", string("a")))));
    aggregator.add_point(&in_group(3, Value::Null));
    aggregator.add_point(&in_group(4, Value::Bool(true)));
    aggregator.add_point(&in_group(5, Value::Array(vec![string("a")])));
    aggregator.add_point(&in_group(6, Value::Object(vec![("x".to_string(), string("a"))])));
    assert_eq!(aggregator.len(), 0);
    assert!(aggregator.flatten().is_empty());
    assert!(aggregator.ids().is_empty());
}

#[test]
fn the_first_of_several_values_is_the_key() {
    let mut aggregator = GroupsAggregator::new(3, 2, "docId[]".to_string());
    let p = point(1, None);
    aggregator.add_point_with_values(&p, &vec![string("a"), string("b")]);
    aggregator.add_point_with_values(&p, &vec![]);
    aggregator.add_point_with_values(&p, &vec![Value::Null, string("b")]);
    assert_eq!(aggregator.len(), 1);
    assert_eq!(aggregator.groups().get(&GroupKey::from("a")).unwrap().len(), 1);
    assert!(aggregator.groups().get(&GroupKey::from("b")).is_none());
}

#[test]
fn a_key_in_a_payload_may_have_several_values() {
    let entries = vec![
        ("meta.docId[]".to_string(), string("a")),
        ("other".to_string(), string("c")),
        ("meta.docId[]".to_string(), string("b")),
    ];
    let payload = Payload { entries };
    assert_eq!(payload.get_value(&"meta.docId[]".to_string()), vec![string("a"), string("b")]);
    let mut aggregator = GroupsAggregator::new(3, 2, "meta.docId[]".to_string());
    aggregator.add_point(&point(1, Some(payload.clone())));
    aggregator.add_points(&[point(2, Some(payload))]);
    assert_eq!(aggregator.len(), 1);
    assert_eq!(
        ids_of(aggregator.groups().get(&GroupKey::from("a")).unwrap()),
        vec![number(1), number(2)]
    );
}

#[test]
fn points_that_are_offered_again_change_nothing() {
    let points: Vec<ScoredPoint> =
        (0..9).map(|id| in_group(id % 5, string(["a", "b", "c"][(id % 3) as usize]))).collect();
    let mut aggregator = GroupsAggregator::new(2, 2, "docId".to_string());
    aggregator.add_points(&points);
    let once = aggregator.flatten();
    aggregator.add_points(&points);
    assert_eq!(aggregator.flatten(), once);
}

#[test]
fn groups_hold_what_came_first() {
    let mut aggregator = GroupsAggregator::new(2, 2, "docId".to_string());
    aggregator.add_points(&[
        point(9, None),
        in_group(4, string("b")),
        in_group(4, string("b")),
        in_group(3, string("a")),
        in_group(2, string("c")),
        in_group(1, string("b")),
        in_group(5, string("b")),
        in_group(6, string("a")),
    ]);
    assert_eq!(aggregator.len(), 2);
    assert_eq!(
        ids_of(aggregator.groups().get(&GroupKey::from("b")).unwrap()),
        vec![number(1), number(4)]
    );
    assert_eq!(
        ids_of(aggregator.groups().get(&GroupKey::from("a")).unwrap()),
        vec![number(3), number(6)]
    );
}

#[test]
fn points_come_with_the_values_found_in_them() {
    let nested = |key: &str| {
        let inner = Value::Object(vec![("docId".to_string(), string(key))]);
        Some(payload("meta", inner))
    };
    let points = vec![point(1, nested("a")), point(2, nested("b")), point(3, nested("a"))];
    let values = vec![vec![string("a")], vec![string("b")], vec![string("a"), string("b")]];
    let mut aggregator = GroupsAggregator::new(3, 2, "meta.docId".to_string());
    aggregator.add_points_with_values(&points, &values);
    assert_eq!(aggregator.len(), 2);
    assert_eq!(
        ids_of(aggregator.groups().get(&GroupKey::from("a")).unwrap()),
        vec![number(1), number(3)]
    );
    assert_eq!(
        ids_of(aggregator.groups().get(&GroupKey::from("b")).unwrap()),
        vec![number(2)]
    );
    aggregator.add_points_with_values(&[], &vec![]);
    assert_eq!(aggregator.flatten().len(), 3);

    // the same in two calls
    let mut again = GroupsAggregator::new(3, 2, "meta.docId".to_string());
    again.add_points_with_values(&points[..1], &values[..1].to_vec());
    again.add_points_with_values(&points[1..], &values[1..].to_vec());
    assert_eq!(again.flatten(), aggregator.flatten());
}

#[test]
fn points_are_grouped_by_the_values_of_their_key() {
    let points = vec![in_group(1, string("a")), point(2, None), in_group(3, string("b"))];
    let mut looked_up = GroupsAggregator::new(3, 2, "docId".to_string());
    looked_up.add_points(&points);
    let mut given = GroupsAggregator::new(3, 2, "docId".to_string());
    given.add_points_with_values(&points, &vec![vec![string("a")], vec![], vec![string("b")]]);
    assert_eq!(looked_up.flatten(), given.flatten());
    assert_eq!(given.len(), 2);
}

#[test]
fn numbers_and_strings_are_different_keys() {
    let mut aggregator = GroupsAggregator::new(10, 2, "docId".to_string());
    aggregator.add_points(&[
        in_group(1, string("1")),
        in_group(2, Value::Number(Number::PosInt(1))),
        in_group(3, Value::Number(Number::NegInt(-1))),
        in_group(4, Value::Number(Number::Float(1.0f64.to_bits()))),
        in_group(5, Value::Number(Number::PosInt(1))),
    ]);
    assert_eq!(aggregator.len(), 4);
    let ones = aggregator.groups().get(&GroupKey::Number(Number::PosInt(1))).unwrap();
    assert_eq!(ids_of(ones), vec![number(2), number(5)]);
}

#[test]
fn the_two_float_zeros_are_one_key() {
    assert_eq!((-0.0f64).to_bits(), NEGATIVE_ZERO);
    assert!(Number::Float(0).same(&Number::Float(NEGATIVE_ZERO)));
    assert!(!Number::Float(0).same(&Number::PosInt(0)));
    let mut aggregator = GroupsAggregator::new(10, 5, "docId".to_string());
    aggregator.add_point(&in_group(1, Value::Number(Number::Float(NEGATIVE_ZERO))));
    aggregator.add_point(&in_group(2, Value::Number(Number::Float(0))));
    assert_eq!(aggregator.len(), 1);
    // the key is the one that came first
    let keys = aggregator.keys_of_unfilled_groups();
    assert_eq!(keys.len(), 1);
    assert!(matches!(&keys[0], Value::Number(Number::Float(NEGATIVE_ZERO))));
}

#[test]
fn the_two_float_zeros_are_equal() {
    let zero = Number::Float(0.0f64.to_bits());
    let negative_zero = Number::Float((-0.0f64).to_bits());
    assert_eq!(zero, negative_zero);
    assert_eq!(Value::Number(zero), Value::Number(negative_zero));
    assert_eq!(GroupKey::Number(zero), GroupKey::Number(negative_zero));
    assert_eq!(
        payload("a", Value::Array(vec![Value::Number(zero)])),
        payload("a", Value::Array(vec![Value::Number(negative_zero)]))
    );
    assert_ne!(zero, Number::PosInt(0));
    assert_ne!(zero, Number::Float(1.0f64.to_bits()));
    assert_ne!(Number::Float(1.0f64.to_bits()), Number::Float((-1.0f64).to_bits()));
    assert_eq!(Number::PosInt(3), Number::PosInt(3));
    assert_ne!(Number::NegInt(-3), Number::NegInt(-4));
}

#[test]
fn points_are_in_the_groups_that_their_keys_name() {
    let mut aggregator = GroupsAggregator::new(2, 2, "docId".to_string());
    for id in 0..12 {
        aggregator.add_point(&in_group(id, string(["a", "b", "c"][(id % 3) as usize])));
    }
    assert_eq!(aggregator.len(), 2);
    for (key, hits) in aggregator.groups().groups() {
        assert_eq!(hits.len(), 2);
        for hit in hits.points() {
            let values = hit.payload.as_ref().unwrap().get_value(&"docId".to_string());
            assert_eq!(GroupKey::from_value(&values[0]).as_ref(), Some(key));
        }
    }
}

#[test]
fn filled_and_unfilled_groups() {
    let mut aggregator = GroupsAggregator::new(3, 2, "docId".to_string());
    aggregator.add_points(&[
        in_group(1, string("a")),
        in_group(2, string("a")),
        in_group(3, string("b")),
        in_group(4, Value::Number(Number::PosInt(7))),
    ]);
    assert_eq!(aggregator.keys_of_filled_groups(), vec![string("a")]);
    let unfilled = aggregator.keys_of_unfilled_groups();
    assert_eq!(unfilled.len(), 2);
    assert!(unfilled.contains(&string("b")));
    assert!(unfilled.contains(&Value::Number(Number::PosInt(7))));
}

#[test]
fn a_group_size_of_zero_opens_empty_groups() {
    let mut aggregator = GroupsAggregator::new(1, 0, "docId".to_string());
    aggregator.add_point(&in_group(1, string("a")));
    aggregator.add_point(&in_group(2, string("b")));
    assert_eq!(aggregator.len(), 1);
    assert_eq!(aggregator.groups().get(&GroupKey::from("a")).unwrap().len(), 0);
    assert_eq!(aggregator.keys_of_filled_groups(), vec![string("a")]);
    assert!(aggregator.flatten().is_empty());
}

#[test]
fn a_point_in_two_groups_has_one_id_and_two_hits() {
    let mut aggregator = GroupsAggregator::new(3, 2, "docId".to_string());
    aggregator.add_points(&[
        in_group(1, string("a")),
        in_group(1, string("b")),
        in_group(2, string("b")),
    ]);
    let mut ids = aggregator.ids();
    ids.sort();
    assert_eq!(ids, vec![number(1), number(2)]);
    assert_eq!(aggregator.flatten().len(), 3);
}

#[test]
fn a_point_that_is_there_is_kept() {
    let mut aggregator = GroupsAggregator::new(1, 5, "docId".to_string());
    aggregator.add_point(&in_group(1, string("a")));
    let mut again = in_group(1, string("a"));
    again.version = 7;
    aggregator.add_point(&again);
    assert_eq!(aggregator.flatten(), vec![in_group(1, string("a"))]);
}

#[test]
fn hydration_takes_the_last_point_and_leaves_others() {
    let mut aggregator = GroupsAggregator::new(2, 3, "docId".to_string());
    aggregator.add_points(&[
        in_group(1, string("a")),
        in_group(2, string("a")),
        in_group(1, string("b")),
    ]);
    let mut last = point(1, Some(payload("k", string("new"))));
    last.vector = Some(VectorStruct::Single(vec![0.5f32.to_bits()]));
    let points = vec![point(1, None), last.clone(), point(9, None)];
    aggregator.hydrate_from(&points);
    let a = aggregator.groups().get(&GroupKey::from("a")).unwrap();
    let b = aggregator.groups().get(&GroupKey::from("b")).unwrap();
    assert_eq!(ids_of(a), vec![number(1), number(2)]);
    assert_eq!(ids_of(b), vec![number(1)]);
    assert_eq!(b.points()[0], last);
    let two = a.points().iter().find(|p| p.id == number(2)).unwrap();
    assert_eq!(*two, in_group(2, string("a")));
    // a second time changes nothing
    let before = aggregator.flatten();
    aggregator.hydrate_from(&points);
    assert_eq!(aggregator.flatten(), before);
}

#[test]
fn hits_and_group_maps() {
    let mut set = Hits::new();
    assert!(set.insert(point(1, None)));
    assert!(!set.insert(point(1, Some(payload("a", Value::Null)))));
    assert!(set.contains(&point(1, None)));
    assert!(!set.contains(&point(2, None)));
    let replaced = set.replace(point(1, Some(payload("a", Value::Null))));
    assert_eq!(replaced, Some(point(1, None)));
    assert_eq!(set.replace(point(2, None)), None);
    assert_eq!(set.len(), 2);

    let mut groups = GroupMap::new();
    assert!(groups.insert(GroupKey::from("a"), set).is_none());
    assert_eq!(groups.insert(GroupKey::from("a"), Hits::new()).unwrap().len(), 2);
    assert_eq!(groups.len(), 1);
    assert!(groups.contains_key(&GroupKey::from("a")));
    assert!(!groups.contains_key(&GroupKey::from("b")));
    assert_eq!(groups.entry(GroupKey::from("b")).len(), 0);
    assert_eq!(groups.len(), 2);
    groups.hits_mut(1).insert(point(5, None));
    assert_eq!(groups.get(&GroupKey::from("b")).unwrap().len(), 1);
    assert_eq!(groups.groups().len(), 2);
}

#[test]
fn keys_from_values() {
    assert_eq!(GroupKey::from_value(&string("a")), Some(GroupKey::from("a")));
    assert_eq!(
        GroupKey::from_value(&Value::Number(Number::PosInt(3))),
        Some(GroupKey::Number(Number::PosInt(3)))
    );
    assert_eq!(GroupKey::from_value(&Value::Array(vec![])), None);
    assert_eq!(GroupKey::from("a").to_value(), string("a"));
    assert!(GroupKey::from("a").same(&GroupKey::from("a")));
    assert!(!GroupKey::from("a").same(&GroupKey::from("b")));
    assert!(!GroupKey::from("1").same(&GroupKey::Number(Number::PosInt(1))));
}

#[test]
fn values_and_payloads_are_copied_whole() {
    let value = Value::Object(vec![
        ("a".to_string(), Value::Array(vec![Value::Null, Value::Bool(true), string("x")])),
        ("b".to_string(), Value::Number(Number::NegInt(-4))),
    ]);
    let fields = payload("v", value.clone());
    assert_eq!(fields.clone(), fields);
    assert_eq!(fields.get_value(&"v".to_string()), vec![value]);
    assert_eq!(fields.get_value(&"w".to_string()), vec![]);
}
