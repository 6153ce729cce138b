//! JSON data as it is stored with a point.
use crate::views::seq_view;
use vstd::prelude::*;

verus! {

/// A JSON number. Floating point numbers are held by their IEEE 754 bit
/// pattern, and are always finite.
#[derive(Clone, Copy, Debug, Eq)]
pub enum Number {
    /// A non-negative integer.
    PosInt(u64),
    /// A negative integer.
    NegInt(i64),
    /// The bits of a finite 64-bit float.
    Float(u64),
}

/// The bits of the float `-0.0`.
pub const NEGATIVE_ZERO: u64 = 0x8000_0000_0000_0000;

impl Number {
    /// The number that stands for all numbers equal to this one: the two float
    /// zeros are equal, every other number is equal to itself alone.
    pub open spec fn canonical(self) -> Number {
        match self {
            Number::Float(bits) => if bits == NEGATIVE_ZERO {
                Number::Float(0)
            } else {
                self
            },
            _ => self,
        }
    }

    /// Whether two numbers are equal.
    pub fn same(&self, other: &Number) -> (equal: bool)
        ensures
            equal == (self.canonical() == other.canonical()),
    {
        match (*self, *other) {
            (Number::Float(a), Number::Float(b)) => {
                a == b || ((a == 0 || a == NEGATIVE_ZERO) && (b == 0 || b == NEGATIVE_ZERO))
            },
            (Number::PosInt(a), Number::PosInt(b)) => a == b,
            (Number::NegInt(a), Number::NegInt(b)) => a == b,
            _ => false,
        }
    }
}

impl PartialEq for Number {
    fn eq(&self, other: &Number) -> (equal: bool) {
        self.same(other)
    }
}

impl vstd::std_specs::cmp::PartialEqSpecImpl for Number {
    open spec fn obeys_eq_spec() -> bool {
        true
    }

    open spec fn eq_spec(&self, other: &Number) -> bool {
        self.canonical() == other.canonical()
    }
}

/// A JSON value.
#[derive(Debug, PartialEq)]
pub enum Value {
    Null,
    Bool(bool),
    Number(Number),
    String(String),
    Array(Vec<Value>),
    Object(Vec<(String, Value)>),
}

/// The contents of a [`Value`].
#[verifier::ext_equal]
pub enum ValueView {
    Null,
    Bool(bool),
    Number(Number),
    String(Seq<char>),
    Array(Seq<ValueView>),
    Object(Seq<(Seq<char>, ValueView)>),
}

impl Value {
    /// The contents of this value.
    pub open spec fn contents(self) -> ValueView
        decreases self,
    {
        match self {
            Value::Null => ValueView::Null,
            Value::Bool(b) => ValueView::Bool(b),
            Value::Number(n) => ValueView::Number(n),
            Value::String(s) => ValueView::String(s@),
            Value::Array(items) => ValueView::Array(
                Seq::new(
                    items@.len(),
                    |i: int|
                        if 0 <= i < items@.len() {
                            items@[i].contents()
                        } else {
                            ValueView::Null
                        },
                ),
            ),
            Value::Object(entries) => ValueView::Object(
                Seq::new(
                    entries@.len(),
                    |i: int|
                        if 0 <= i < entries@.len() {
                            (entries@[i].0@, entries@[i].1.contents())
                        } else {
                            (Seq::empty(), ValueView::Null)
                        },
                ),
            ),
        }
    }
}

impl View for Value {
    type V = ValueView;

    open spec fn view(&self) -> ValueView {
        self.contents()
    }
}

impl Clone for Value {
    fn clone(&self) -> (copy: Self)
        ensures
            copy@ == self@,
        decreases self,
    {
        match self {
            Value::Null => Value::Null,
            Value::Bool(b) => Value::Bool(*b),
            Value::Number(n) => Value::Number(*n),
            Value::String(s) => Value::String(s.clone()),
            Value::Array(items) => {
                let mut copies: Vec<Value> = Vec::new();
                let mut i: usize = 0;
                while i < items.len()
                    invariant
                        self == Value::Array(*items),
                        i <= items@.len(),
                        copies@.len() == i,
                        forall|j: int| 0 <= j < i ==> #[trigger] copies@[j]@ == items@[j]@,
                    decreases items@.len() - i,
                {
                    assert(decreases_to!(*self => self->Array_0));
                    copies.push(items[i].clone());
                    i += 1;
                }
                let copy = Value::Array(copies);
                assert forall|j: int| 0 <= j < items@.len() implies copy@->Array_0[j]
                    == self@->Array_0[j] by {
                    assert(copy->Array_0@[j]@ == items@[j]@);
                }
                assert(copy@->Array_0 =~= self@->Array_0);
                copy
            },
            Value::Object(entries) => {
                let mut copies: Vec<(String, Value)> = Vec::new();
                let mut i: usize = 0;
                while i < entries.len()
                    invariant
                        self == Value::Object(*entries),
                        i <= entries@.len(),
                        copies@.len() == i,
                        forall|j: int|
                            0 <= j < i ==> (#[trigger] copies@[j]).0@ == entries@[j].0@
                                && copies@[j].1@ == entries@[j].1@,
                    decreases entries@.len() - i,
                {
                    assert(decreases_to!(*self => self->Object_0));
                    assert(decreases_to!(entries@[i as int] => entries@[i as int].1));
                    copies.push((entries[i].0.clone(), entries[i].1.clone()));
                    i += 1;
                }
                let copy = Value::Object(copies);
                assert(copy@->Object_0 =~= self@->Object_0);
                copy
            },
        }
    }
}

/// The JSON object stored with a point, as the values that are found in it by
/// key. A key is the name of a field, or a path to values deeper in the object.
/// A key that holds several values is listed once for each, in their order.
#[derive(Debug, PartialEq)]
pub struct Payload {
    pub entries: Vec<(String, Value)>,
}

impl View for Payload {
    type V = Seq<(Seq<char>, ValueView)>;

    open spec fn view(&self) -> Seq<(Seq<char>, ValueView)> {
        self.entries@.map_values(|entry: (String, Value)| (entry.0@, entry.1@))
    }
}

/// The values that a payload holds under `key`, in their order.
pub open spec fn values_under(entries: Seq<(Seq<char>, ValueView)>, key: Seq<char>) -> Seq<
    ValueView,
>
    decreases entries.len(),
{
    if entries.len() == 0 {
        Seq::empty()
    } else if entries.last().0 == key {
        values_under(entries.drop_last(), key).push(entries.last().1)
    } else {
        values_under(entries.drop_last(), key)
    }
}

impl Payload {
    /// The values of `key`.
    pub fn get_value(&self, key: &String) -> (values: Vec<Value>)
        ensures
            seq_view(values@) == values_under(self@, key@),
    {
        let mut values: Vec<Value> = Vec::new();
        let mut i: usize = 0;
        assert(seq_view(values@) =~= Seq::empty());
        while i < self.entries.len()
            invariant
                i <= self.entries@.len(),
                seq_view(values@) == values_under(self@.take(i as int), key@),
            decreases self.entries@.len() - i,
        {
            let ghost found = seq_view(values@);
            assert(self@.take(i + 1).drop_last() =~= self@.take(i as int));
            assert(self@.take(i + 1).last() == self@[i as int]);
            if self.entries[i].0 == *key {
                values.push(self.entries[i].1.clone());
                assert(seq_view(values@) =~= found.push(self@[i as int].1));
            }
            i += 1;
        }
        assert(self@.take(i as int) =~= self@);
        values
    }
}

impl Clone for Payload {
    fn clone(&self) -> (copy: Self)
        ensures
            copy@ == self@,
    {
        let mut entries: Vec<(String, Value)> = Vec::new();
        let mut i: usize = 0;
        while i < self.entries.len()
            invariant
                i <= self.entries@.len(),
                entries@.len() == i,
                forall|j: int|
                    0 <= j < i ==> (#[trigger] entries@[j]).0@ == self.entries@[j].0@ && entries@[j].1@
                        == self.entries@[j].1@,
            decreases self.entries@.len() - i,
        {
            entries.push((self.entries[i].0.clone(), self.entries[i].1.clone()));
            i += 1;
        }
        let copy = Payload { entries };
        assert(copy@ =~= self@);
        copy
    }
}

} // verus!
