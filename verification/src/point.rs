//! Points and records.
use crate::json::{Payload, ValueView};
use crate::views::option_view;
use vstd::prelude::*;

verus! {

/// The identifier of a point: a number or a UUID. Numbers come before UUIDs;
/// numbers are ordered by value, UUIDs by their 128 bits.
#[derive(Clone, Copy, Debug, PartialEq, Eq, PartialOrd, Ord, Hash, Structural)]
pub enum ExtendedPointId {
    NumId(u64),
    Uuid(u128),
}

/// The value that a point was ordered by, as its position among all values:
/// two values compare as their ranks do.
#[derive(Clone, Copy, Debug, PartialEq, Eq, PartialOrd, Ord, Hash, Structural)]
pub struct OrderValue {
    pub rank: i128,
}

/// A vector, or several vectors by name. Components are held by the bit
/// pattern of their 32-bit floats.
#[derive(Debug, PartialEq)]
pub enum VectorStruct {
    Single(Vec<u32>),
    Named(Vec<(String, Vec<u32>)>),
}

/// The contents of a [`VectorStruct`].
#[verifier::ext_equal]
pub enum VectorView {
    Single(Seq<u32>),
    Named(Seq<(Seq<char>, Seq<u32>)>),
}

impl View for VectorStruct {
    type V = VectorView;

    open spec fn view(&self) -> VectorView {
        match self {
            VectorStruct::Single(vector) => VectorView::Single(vector@),
            VectorStruct::Named(vectors) => VectorView::Named(
                vectors@.map_values(|named: (String, Vec<u32>)| (named.0@, named.1@)),
            ),
        }
    }
}

impl Clone for VectorStruct {
    fn clone(&self) -> (copy: Self)
        ensures
            copy@ == self@,
    {
        match self {
            VectorStruct::Single(vector) => {
                let copy = VectorStruct::Single(vector.clone());
                assert(copy@->Single_0 =~= self@->Single_0);
                copy
            },
            VectorStruct::Named(vectors) => {
                let mut copies: Vec<(String, Vec<u32>)> = Vec::new();
                let mut i: usize = 0;
                while i < vectors.len()
                    invariant
                        i <= vectors@.len(),
                        copies@.len() == i,
                        forall|j: int|
                            0 <= j < i ==> (#[trigger] copies@[j]).0@ == vectors@[j].0@
                                && copies@[j].1@ == vectors@[j].1@,
                    decreases vectors@.len() - i,
                {
                    let components = vectors[i].1.clone();
                    assert(components@ =~= vectors@[i as int].1@);
                    copies.push((vectors[i].0.clone(), components));
                    i += 1;
                }
                let copy = VectorStruct::Named(copies);
                assert(copy@->Named_0 =~= self@->Named_0);
                copy
            },
        }
    }
}

/// The key of the shard that a point is stored in.
#[derive(Debug, PartialEq)]
pub enum ShardKey {
    Keyword(String),
    Number(u64),
}

/// The contents of a [`ShardKey`].
pub enum ShardKeyView {
    Keyword(Seq<char>),
    Number(u64),
}

impl View for ShardKey {
    type V = ShardKeyView;

    open spec fn view(&self) -> ShardKeyView {
        match self {
            ShardKey::Keyword(word) => ShardKeyView::Keyword(word@),
            ShardKey::Number(number) => ShardKeyView::Number(*number),
        }
    }
}

impl Clone for ShardKey {
    fn clone(&self) -> (copy: Self)
        ensures
            copy@ == self@,
    {
        match self {
            ShardKey::Keyword(word) => ShardKey::Keyword(word.clone()),
            ShardKey::Number(number) => ShardKey::Number(*number),
        }
    }
}

/// A copy of an optional payload.
fn copy_payload(payload: &Option<Payload>) -> (copy: Option<Payload>)
    ensures
        option_view(copy) == option_view(*payload),
{
    match payload {
        Some(payload) => Some(payload.clone()),
        None => None,
    }
}

/// A copy of an optional vector.
fn copy_vector(vector: &Option<VectorStruct>) -> (copy: Option<VectorStruct>)
    ensures
        option_view(copy) == option_view(*vector),
{
    match vector {
        Some(vector) => Some(vector.clone()),
        None => None,
    }
}

/// A copy of an optional shard key.
fn copy_shard_key(shard_key: &Option<ShardKey>) -> (copy: Option<ShardKey>)
    ensures
        option_view(copy) == option_view(*shard_key),
{
    match shard_key {
        Some(shard_key) => Some(shard_key.clone()),
        None => None,
    }
}

/// A stored point, with the parts of it that were asked for.
#[derive(Debug, PartialEq)]
pub struct Record {
    pub id: ExtendedPointId,
    pub payload: Option<Payload>,
    pub vector: Option<VectorStruct>,
    pub shard_key: Option<ShardKey>,
}

/// The contents of a [`Record`].
pub struct RecordView {
    pub id: ExtendedPointId,
    pub payload: Option<Seq<(Seq<char>, ValueView)>>,
    pub vector: Option<VectorView>,
    pub shard_key: Option<ShardKeyView>,
}

impl View for Record {
    type V = RecordView;

    open spec fn view(&self) -> RecordView {
        RecordView {
            id: self.id,
            payload: option_view(self.payload),
            vector: option_view(self.vector),
            shard_key: option_view(self.shard_key),
        }
    }
}

impl Clone for Record {
    fn clone(&self) -> (copy: Self)
        ensures
            copy@ == self@,
    {
        Record {
            id: self.id,
            payload: copy_payload(&self.payload),
            vector: copy_vector(&self.vector),
            shard_key: copy_shard_key(&self.shard_key),
        }
    }
}

/// A point that a query found.
#[derive(Debug, PartialEq)]
pub struct ScoredPoint {
    pub id: ExtendedPointId,
    pub version: u64,
    /// The bits of the score, a 32-bit float.
    pub score_bits: u32,
    pub payload: Option<Payload>,
    pub vector: Option<VectorStruct>,
    pub shard_key: Option<ShardKey>,
    /// The value by which the query ordered the point, if it ordered by a field.
    pub order_value: Option<OrderValue>,
}

/// The contents of a [`ScoredPoint`].
pub struct ScoredPointView {
    pub id: ExtendedPointId,
    pub version: u64,
    pub score_bits: u32,
    pub payload: Option<Seq<(Seq<char>, ValueView)>>,
    pub vector: Option<VectorView>,
    pub shard_key: Option<ShardKeyView>,
    pub order_value: Option<OrderValue>,
}

impl View for ScoredPoint {
    type V = ScoredPointView;

    open spec fn view(&self) -> ScoredPointView {
        ScoredPointView {
            id: self.id,
            version: self.version,
            score_bits: self.score_bits,
            payload: option_view(self.payload),
            vector: option_view(self.vector),
            shard_key: option_view(self.shard_key),
            order_value: self.order_value,
        }
    }
}

impl Clone for ScoredPoint {
    fn clone(&self) -> (copy: Self)
        ensures
            copy@ == self@,
    {
        ScoredPoint {
            id: self.id,
            version: self.version,
            score_bits: self.score_bits,
            payload: copy_payload(&self.payload),
            vector: copy_vector(&self.vector),
            shard_key: copy_shard_key(&self.shard_key),
            order_value: self.order_value,
        }
    }
}

} // verus!
