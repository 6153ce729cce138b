//! What the contents of data are, part by part, and that copies keep them.
use crate::groups::{GroupKey, GroupKeyView};
use crate::json::{values_under, Number, Payload, Value, ValueView};
use crate::point::{Record, ScoredPoint, ShardKey, ShardKeyView, VectorStruct, VectorView};
use crate::terms::{lemma_picks_one_more, picks};
use crate::views::{option_view, seq_view};
use vstd::prelude::*;

verus! {

/// The contents of an option are the contents of what it holds.
pub proof fn law_contents_of_option<T: View>(option: Option<T>)
    ensures
        option_view(option) is Some == option is Some,
        option is Some ==> option_view(option)->Some_0 == option->Some_0@,
{
}

/// The contents of a sequence are the contents of its elements, in their places.
pub proof fn law_contents_of_sequence<T: View>(elements: Seq<T>, i: int)
    ensures
        seq_view(elements).len() == elements.len(),
        0 <= i < elements.len() ==> seq_view(elements)[i] == elements[i]@,
{
}

/// The contents of a JSON value are of its kind; those of an array or an object
/// are the contents of its elements, in their places.
pub proof fn law_contents_of_value(value: Value)
    ensures
        value is Null ==> value@ == ValueView::Null,
        value is Bool ==> value@ == ValueView::Bool(value->Bool_0),
        value is Number ==> value@ == ValueView::Number(value->Number_0),
        value is String ==> value@ == ValueView::String(value->String_0@),
        value is Array ==> {
            &&& value@ is Array
            &&& value@->Array_0.len() == value->Array_0@.len()
            &&& forall|i: int|
                0 <= i < value->Array_0@.len() ==> value@->Array_0[i] == (
                #[trigger] value->Array_0@[i])@
        },
        value is Object ==> {
            &&& value@ is Object
            &&& value@->Object_0.len() == value->Object_0@.len()
            &&& forall|i: int|
                0 <= i < value->Object_0@.len() ==> value@->Object_0[i].0 == (
                #[trigger] value->Object_0@[i]).0@ && value@->Object_0[i].1
                    == value->Object_0@[i].1@
        },
{
}

/// The contents of a payload are its keys and the contents of its values, in
/// their places.
pub proof fn law_contents_of_payload(payload: Payload)
    ensures
        payload@.len() == payload.entries@.len(),
        forall|i: int|
            0 <= i < payload.entries@.len() ==> payload@[i].0 == (
            #[trigger] payload.entries@[i]).0@ && payload@[i].1 == payload.entries@[i].1@,
{
}

/// The contents of a vector are its components, or its names and components, in
/// their places.
pub proof fn law_contents_of_vector(vector: VectorStruct)
    ensures
        vector is Single ==> vector@ == VectorView::Single(vector->Single_0@),
        vector is Named ==> {
            &&& vector@ is Named
            &&& vector@->Named_0.len() == vector->Named_0@.len()
            &&& forall|i: int|
                0 <= i < vector->Named_0@.len() ==> vector@->Named_0[i].0 == (
                #[trigger] vector->Named_0@[i]).0@ && vector@->Named_0[i].1
                    == vector->Named_0@[i].1@
        },
{
}

/// The contents of a shard key are its word or its number.
pub proof fn law_contents_of_shard_key(shard_key: ShardKey)
    ensures
        shard_key is Keyword ==> shard_key@ == ShardKeyView::Keyword(shard_key->Keyword_0@),
        shard_key is Number ==> shard_key@ == ShardKeyView::Number(shard_key->Number_0),
{
}

/// The contents of a record are those of all its parts.
pub proof fn law_contents_of_record(record: Record)
    ensures
        record@.id == record.id,
        record@.payload is Some == record.payload is Some,
        record.payload is Some ==> record@.payload->Some_0 == record.payload->Some_0@,
        record@.vector is Some == record.vector is Some,
        record.vector is Some ==> record@.vector->Some_0 == record.vector->Some_0@,
        record@.shard_key is Some == record.shard_key is Some,
        record.shard_key is Some ==> record@.shard_key->Some_0 == record.shard_key->Some_0@,
{
}

/// The contents of a point are those of all its parts.
pub proof fn law_contents_of_point(point: ScoredPoint)
    ensures
        point@.id == point.id,
        point@.version == point.version,
        point@.score_bits == point.score_bits,
        point@.payload is Some == point.payload is Some,
        point.payload is Some ==> point@.payload->Some_0 == point.payload->Some_0@,
        point@.vector is Some == point.vector is Some,
        point.vector is Some ==> point@.vector->Some_0 == point.vector->Some_0@,
        point@.shard_key is Some == point.shard_key is Some,
        point.shard_key is Some ==> point@.shard_key->Some_0 == point.shard_key->Some_0@,
        point@.order_value == point.order_value,
{
}

/// The contents of a group key are its number or its string.
pub proof fn law_contents_of_group_key(key: GroupKey)
    ensures
        key is Number ==> key@ == GroupKeyView::Number(key->Number_0),
        key is String ==> key@ == GroupKeyView::String(key->String_0@),
{
}

/// A copy of a JSON value has its contents.
pub proof fn law_copy_of_value(value: &Value, copy: Value)
    requires
        call_ensures(Value::clone, (value,), copy),
    ensures
        copy@ == value@,
{
}

/// A copy of a payload has its contents.
pub proof fn law_copy_of_payload(payload: &Payload, copy: Payload)
    requires
        call_ensures(Payload::clone, (payload,), copy),
    ensures
        copy@ == payload@,
{
}

/// A copy of a vector has its contents.
pub proof fn law_copy_of_vector(vector: &VectorStruct, copy: VectorStruct)
    requires
        call_ensures(VectorStruct::clone, (vector,), copy),
    ensures
        copy@ == vector@,
{
}

/// A copy of a shard key has its contents.
pub proof fn law_copy_of_shard_key(shard_key: &ShardKey, copy: ShardKey)
    requires
        call_ensures(ShardKey::clone, (shard_key,), copy),
    ensures
        copy@ == shard_key@,
{
}

/// A copy of a record has all its parts.
pub proof fn law_copy_of_record(record: &Record, copy: Record)
    requires
        call_ensures(Record::clone, (record,), copy),
    ensures
        copy.id == record.id,
        copy.payload is Some == record.payload is Some,
        copy.payload is Some ==> copy.payload->Some_0@ == record.payload->Some_0@,
        copy.vector is Some == record.vector is Some,
        copy.vector is Some ==> copy.vector->Some_0@ == record.vector->Some_0@,
        copy.shard_key is Some == record.shard_key is Some,
        copy.shard_key is Some ==> copy.shard_key->Some_0@ == record.shard_key->Some_0@,
{
    law_contents_of_record(*record);
    law_contents_of_record(copy);
}

/// A copy of a point has all its parts.
pub proof fn law_copy_of_point(point: &ScoredPoint, copy: ScoredPoint)
    requires
        call_ensures(ScoredPoint::clone, (point,), copy),
    ensures
        copy.id == point.id,
        copy.version == point.version,
        copy.score_bits == point.score_bits,
        copy.payload is Some == point.payload is Some,
        copy.payload is Some ==> copy.payload->Some_0@ == point.payload->Some_0@,
        copy.vector is Some == point.vector is Some,
        copy.vector is Some ==> copy.vector->Some_0@ == point.vector->Some_0@,
        copy.shard_key is Some == point.shard_key is Some,
        copy.shard_key is Some ==> copy.shard_key->Some_0@ == point.shard_key->Some_0@,
        copy.order_value == point.order_value,
{
    law_contents_of_point(*point);
    law_contents_of_point(copy);
}

/// Whether two numbers are equal: they are the same, or they are the two float
/// zeros.
pub open spec fn equal_numbers(a: Number, b: Number) -> bool {
    a == b || (a == Number::Float(0) && b == Number::Float(0x8000_0000_0000_0000)) || (a
        == Number::Float(0x8000_0000_0000_0000) && b == Number::Float(0))
}

/// Numbers are the same, and are equal, if they are the same number or the two
/// float zeros.
pub proof fn law_equal_numbers(a: &Number, b: &Number, same: bool, equal: bool)
    requires
        call_ensures(Number::same, (a, b), same),
        call_ensures(<Number as PartialEq>::eq, (a, b), equal),
    ensures
        same == equal_numbers(*a, *b),
        equal == equal_numbers(*a, *b),
{
}

/// Whether two keys are equal: they are equal numbers or the same string.
pub open spec fn equal_keys(a: GroupKeyView, b: GroupKeyView) -> bool {
    match (a, b) {
        (GroupKeyView::Number(x), GroupKeyView::Number(y)) => equal_numbers(x, y),
        (GroupKeyView::String(x), GroupKeyView::String(y)) => x == y,
        _ => false,
    }
}

/// Keys stand for the same group if they are equal.
pub proof fn law_equal_keys(a: GroupKeyView, b: GroupKeyView)
    ensures
        a.canonical() == b.canonical() <==> equal_keys(a, b),
{
}

/// Group keys are the same if they are equal numbers or the same string.
pub proof fn law_same_group_keys(a: &GroupKey, b: &GroupKey, same: bool)
    requires
        call_ensures(GroupKey::same, (a, b), same),
    ensures
        same == equal_keys(a@, b@),
{
    law_equal_keys(a@, b@);
}

/// A number or a string gives the key that is this number or string; no other
/// value gives a key.
pub proof fn law_key_of_value(value: &Value, key: Option<GroupKey>)
    requires
        call_ensures(GroupKey::from_value, (value,), key),
    ensures
        key is Some == (value is Number || value is String),
        *value matches Value::Number(number) ==> key->Some_0@ == GroupKeyView::Number(number),
        *value matches Value::String(string) ==> key->Some_0@ == GroupKeyView::String(string@),
{
}

/// A string is the key of its characters.
pub proof fn law_key_of_string(string: &str, key: GroupKey)
    requires
        call_ensures(GroupKey::from, (string,), key),
    ensures
        key@ == GroupKeyView::String(string@),
{
}

/// The value of a key gives the key back.
pub proof fn law_value_of_key(key: &GroupKey, value: Value, again: Option<GroupKey>)
    requires
        call_ensures(GroupKey::to_value, (key,), value),
        call_ensures(GroupKey::from_value, (&value,), again),
    ensures
        again is Some,
        again->Some_0@ == key@,
        value is Number == key is Number,
        value is String == key is String,
{
}

/// The places of entries with the key `key`.
pub open spec fn have_key(payload: Payload, key: Seq<char>) -> spec_fn(int) -> bool {
    |i: int| payload.entries@[i].0@ == key
}

/// The places of the first `n` entries with a key, and their values.
proof fn lemma_places_of_key(payload: Payload, key: Seq<char>, n: nat) -> (at: Seq<int>)
    requires
        n <= payload.entries@.len(),
    ensures
        picks(at, n, have_key(payload, key)),
        values_under(payload@.take(n as int), key).len() == at.len(),
        forall|j: int|
            0 <= j < at.len() ==> #[trigger] values_under(payload@.take(n as int), key)[j]
                == payload.entries@[at[j]].1@,
    decreases n,
{
    if n == 0 {
        Seq::empty()
    } else {
        let m = (n - 1) as nat;
        let at = lemma_places_of_key(payload, key, m);
        let entries = payload@.take(n as int);
        assert(entries.drop_last() =~= payload@.take(m as int));
        assert(entries.last() == payload@[m as int]);
        lemma_picks_one_more(at, m, have_key(payload, key), have_key(payload, key));
        if have_key(payload, key)(m as int) {
            at.push(m as int)
        } else {
            at
        }
    }
}

/// The values of a key are those of the entries with that key, all of them, in
/// the order of the entries.
pub proof fn law_values_of_key(payload: &Payload, key: &String, values: Vec<Value>)
    requires
        call_ensures(Payload::get_value, (payload, key), values),
    ensures
        exists|at: Seq<int>|
            #[trigger] picks(at, payload.entries@.len(), have_key(*payload, key@)) && values@.len()
                == at.len() && forall|j: int|
                0 <= j < at.len() ==> (#[trigger] values@[j])@ == payload.entries@[at[j]].1@,
{
    let n = payload.entries@.len();
    let at = lemma_places_of_key(*payload, key@, n);
    assert(payload@.take(n as int) =~= payload@);
    assert(seq_view(values@).len() == values@.len());
    assert forall|j: int| 0 <= j < at.len() implies (#[trigger] values@[j])@
        == payload.entries@[at[j]].1@ by {
        assert(seq_view(values@)[j] == values@[j]@);
    }
    assert(picks(at, n, have_key(*payload, key@)));
}

} // verus!
