//! The values that the codec reads and writes, and their mathematical model.
//!
//! [`Value`] is what programs hold. [`Item`] is what contracts speak of: the
//! same tree with numbers as naturals and strings and containers as
//! sequences. [`model`] maps the first to the second.

use crate::wire::be_value;
use vstd::prelude::*;

verus! {

/// The kinds of domain values that the codec carries without building
/// them: the content is checked for its shape and handed on as it is.
#[derive(Clone, Copy, PartialEq, Eq, Structural, Debug)]
pub enum DomainKind {
    /// A date and time as ISO 8601 text.
    DateTimeText,
    /// A date and time as seconds since the epoch.
    EpochDateTime,
    /// A date and time with both forms, as the encoder takes it.
    DateTime,
    /// A decimal fraction: exponent of ten and mantissa.
    Decimal,
    /// A binary fraction: exponent of two and mantissa.
    BigFloat,
    /// A rational number: numerator and denominator.
    Rational,
    /// A regular expression.
    Regexp,
    /// A MIME message.
    Mime,
    /// A UUID in sixteen bytes.
    Uuid,
    Ipv4Address,
    Ipv4Network,
    Ipv4Interface,
    Ipv6Address,
    Ipv6Network,
    Ipv6Interface,
    /// A date as days since the epoch.
    EpochDate,
    /// A date as ISO 8601 text.
    DateText,
    /// A date with all its forms, as the encoder takes it.
    Date,
    /// An IP address of either family, in the older tag.
    IpAddress,
    /// An IP network of either family, in the older tag.
    IpNetwork,
    /// A complex number: real and imaginary part.
    Complex,
}

/// The mathematical model of a value.
pub enum Item {
    /// A natural number.
    Unsigned(nat),
    /// The negative number `-1 - n`.
    Negative(nat),
    Bytes(Seq<u8>),
    /// Bytes that the program may still change.
    ByteArray(Seq<u8>),
    Text(Seq<char>),
    /// A list: ordered, and with an identity of its own.
    Array(Seq<Item>),
    /// A list that cannot change; equal content makes equal tuples.
    Tuple(Seq<Item>),
    /// Keys with their values, in the order in which the keys came.
    Dict(Seq<(Item, Item)>),
    /// A mapping that cannot change and may itself be a key.
    FrozenDict(Seq<(Item, Item)>),
    /// Members without repetition, in the order in which they came.
    MutableSet(Seq<Item>),
    /// A set that cannot change.
    FrozenSet(Seq<Item>),
    /// A semantic tag around a value.
    Tag(u64, Box<Item>),
    /// A simple value, 0 to 23 or 32 to 255.
    Simple(u8),
    Bool(bool),
    Null,
    Undefined,
    /// The mark that ends an item of indefinite length.
    Break,
    /// A floating-point number by the bits of its double.
    Float(u64),
    /// The value in the slot of that index in the table of shared values.
    Shared(nat),
    /// A domain value by kind and content.
    Domain(DomainKind, Box<Item>),
    /// A value of a kind unknown to the codec, by the name of its type.
    Foreign(Seq<char>),
}

/// A value as programs hold it.
#[derive(Debug)]
pub enum Value {
    /// A natural number below 2^64.
    Unsigned(u64),
    /// The negative number `-1 - n`.
    Negative(u64),
    /// A natural number by its big-endian bytes.
    BigUnsigned(Vec<u8>),
    /// The negative number `-1 - n`, `n` by its big-endian bytes.
    BigNegative(Vec<u8>),
    Bytes(Vec<u8>),
    ByteArray(Vec<u8>),
    Text(String),
    Array(Vec<Value>),
    Tuple(Vec<Value>),
    Dict(Vec<(Value, Value)>),
    FrozenDict(Vec<(Value, Value)>),
    MutableSet(Vec<Value>),
    FrozenSet(Vec<Value>),
    Tag(u64, Box<Value>),
    Simple(u8),
    Bool(bool),
    Null,
    Undefined,
    Break,
    Float(u64),
    Shared(usize),
    Domain(DomainKind, Box<Value>),
    Foreign(String),
}

/// The model of a value.
pub open spec fn model(v: Value) -> Item
    decreases v,
{
    match v {
        Value::Unsigned(n) => Item::Unsigned(n as nat),
        Value::Negative(n) => Item::Negative(n as nat),
        Value::BigUnsigned(b) => Item::Unsigned(be_value(b@)),
        Value::BigNegative(b) => Item::Negative(be_value(b@)),
        Value::Bytes(b) => Item::Bytes(b@),
        Value::ByteArray(b) => Item::ByteArray(b@),
        Value::Text(s) => Item::Text(s@),
        Value::Array(items) => Item::Array(
            Seq::new(
                items@.len(),
                |i: int|
                    if 0 <= i < items@.len() {
                        model(items@[i])
                    } else {
                        Item::Null
                    },
            ),
        ),
        Value::Tuple(items) => Item::Tuple(
            Seq::new(
                items@.len(),
                |i: int|
                    if 0 <= i < items@.len() {
                        model(items@[i])
                    } else {
                        Item::Null
                    },
            ),
        ),
        Value::Dict(entries) => Item::Dict(
            Seq::new(
                entries@.len(),
                |i: int|
                    if 0 <= i < entries@.len() {
                        (model(entries@[i].0), model(entries@[i].1))
                    } else {
                        (Item::Null, Item::Null)
                    },
            ),
        ),
        Value::FrozenDict(entries) => Item::FrozenDict(
            Seq::new(
                entries@.len(),
                |i: int|
                    if 0 <= i < entries@.len() {
                        (model(entries@[i].0), model(entries@[i].1))
                    } else {
                        (Item::Null, Item::Null)
                    },
            ),
        ),
        Value::MutableSet(items) => Item::MutableSet(
            Seq::new(
                items@.len(),
                |i: int|
                    if 0 <= i < items@.len() {
                        model(items@[i])
                    } else {
                        Item::Null
                    },
            ),
        ),
        Value::FrozenSet(items) => Item::FrozenSet(
            Seq::new(
                items@.len(),
                |i: int|
                    if 0 <= i < items@.len() {
                        model(items@[i])
                    } else {
                        Item::Null
                    },
            ),
        ),
        Value::Tag(t, inner) => Item::Tag(t, Box::new(model(*inner))),
        Value::Simple(n) => Item::Simple(n),
        Value::Bool(b) => Item::Bool(b),
        Value::Null => Item::Null,
        Value::Undefined => Item::Undefined,
        Value::Break => Item::Break,
        Value::Float(bits) => Item::Float(bits),
        Value::Shared(i) => Item::Shared(i as nat),
        Value::Domain(kind, inner) => Item::Domain(kind, Box::new(model(*inner))),
        Value::Foreign(name) => Item::Foreign(name@),
    }
}

impl View for Value {
    type V = Item;

    open spec fn view(&self) -> Item {
        model(*self)
    }
}

/// The models of a sequence of values.
pub open spec fn models(values: Seq<Value>) -> Seq<Item> {
    Seq::new(values.len(), |i: int| model(values[i]))
}

/// The models of a sequence of keys with their values.
pub open spec fn entry_models(entries: Seq<(Value, Value)>) -> Seq<(Item, Item)> {
    Seq::new(entries.len(), |i: int| (model(entries[i].0), model(entries[i].1)))
}

/// The model of a container is the container of the models.
pub proof fn lemma_model_unfold(v: Value)
    ensures
        v matches Value::Array(items) ==> v@ == Item::Array(models(items@)),
        v matches Value::Tuple(items) ==> v@ == Item::Tuple(models(items@)),
        v matches Value::MutableSet(items) ==> v@ == Item::MutableSet(models(items@)),
        v matches Value::FrozenSet(items) ==> v@ == Item::FrozenSet(models(items@)),
        v matches Value::Dict(entries) ==> v@ == Item::Dict(entry_models(entries@)),
        v matches Value::FrozenDict(entries) ==> v@ == Item::FrozenDict(entry_models(entries@)),
{
    match v {
        Value::Array(items) => {
            assert(v@->Array_0 =~= models(items@));
        },
        Value::Tuple(items) => {
            assert(v@->Tuple_0 =~= models(items@));
        },
        Value::MutableSet(items) => {
            assert(v@->MutableSet_0 =~= models(items@));
        },
        Value::FrozenSet(items) => {
            assert(v@->FrozenSet_0 =~= models(items@));
        },
        Value::Dict(entries) => {
            assert(v@->Dict_0 =~= entry_models(entries@));
        },
        Value::FrozenDict(entries) => {
            assert(v@->FrozenDict_0 =~= entry_models(entries@));
        },
        _ => {},
    }
}

pub proof fn lemma_models_push(values: Seq<Value>, v: Value)
    ensures
        models(values.push(v)) == models(values).push(v@),
{
    assert(models(values.push(v)) =~= models(values).push(v@));
}

pub proof fn lemma_entry_models_push(entries: Seq<(Value, Value)>, k: Value, v: Value)
    ensures
        entry_models(entries.push((k, v))) == entry_models(entries).push((k@, v@)),
{
    assert(entry_models(entries.push((k, v))) =~= entry_models(entries).push((k@, v@)));
}

/// Copies bytes.
pub fn copy_bytes(bytes: &Vec<u8>) -> (out: Vec<u8>)
    ensures
        out@ == bytes@,
{
    let mut out: Vec<u8> = Vec::new();
    let mut i: usize = 0;
    while i < bytes.len()
        invariant
            i <= bytes.len(),
            out@ == bytes@.take(i as int),
        decreases bytes.len() - i,
    {
        out.push(bytes[i]);
        assert(bytes@.take(i + 1) =~= bytes@.take(i as int).push(bytes@[i as int]));
        i += 1;
    }
    assert(bytes@.take(i as int) =~= bytes@);
    out
}

impl Value {
    /// A copy of the value, with every container copied too.
    pub fn duplicate(&self) -> (out: Value)
        ensures
            out@ == self@,
        decreases self,
    {
        proof {
            lemma_model_unfold(*self);
        }
        let out = match self {
            Value::Unsigned(n) => Value::Unsigned(*n),
            Value::Negative(n) => Value::Negative(*n),
            Value::BigUnsigned(b) => Value::BigUnsigned(copy_bytes(b)),
            Value::BigNegative(b) => Value::BigNegative(copy_bytes(b)),
            Value::Bytes(b) => Value::Bytes(copy_bytes(b)),
            Value::ByteArray(b) => Value::ByteArray(copy_bytes(b)),
            Value::Text(s) => Value::Text(s.clone()),
            Value::Array(items) => Value::Array(duplicate_all(items)),
            Value::Tuple(items) => Value::Tuple(duplicate_all(items)),
            Value::Dict(entries) => Value::Dict(duplicate_entries(entries)),
            Value::FrozenDict(entries) => Value::FrozenDict(duplicate_entries(entries)),
            Value::MutableSet(items) => Value::MutableSet(duplicate_all(items)),
            Value::FrozenSet(items) => Value::FrozenSet(duplicate_all(items)),
            Value::Tag(t, inner) => Value::Tag(*t, Box::new(inner.duplicate())),
            Value::Simple(n) => Value::Simple(*n),
            Value::Bool(b) => Value::Bool(*b),
            Value::Null => Value::Null,
            Value::Undefined => Value::Undefined,
            Value::Break => Value::Break,
            Value::Float(bits) => Value::Float(*bits),
            Value::Shared(i) => Value::Shared(*i),
            Value::Domain(kind, inner) => Value::Domain(*kind, Box::new(inner.duplicate())),
            Value::Foreign(name) => Value::Foreign(name.clone()),
        };
        proof {
            lemma_model_unfold(out);
        }
        out
    }
}

/// Copies every value of a list.
pub fn duplicate_all(items: &Vec<Value>) -> (out: Vec<Value>)
    ensures
        models(out@) == models(items@),
    decreases items,
{
    let mut out: Vec<Value> = Vec::new();
    let mut i: usize = 0;
    while i < items.len()
        invariant
            i <= items.len(),
            out@.len() == i,
            forall|j: int| 0 <= j < i ==> out@[j]@ == items@[j]@,
        decreases items.len() - i,
    {
        out.push(items[i].duplicate());
        i += 1;
    }
    assert(models(out@) =~= models(items@));
    out
}

/// Copies every key and value of a list of entries.
pub fn duplicate_entries(entries: &Vec<(Value, Value)>) -> (out: Vec<(Value, Value)>)
    ensures
        entry_models(out@) == entry_models(entries@),
    decreases entries,
{
    let mut out: Vec<(Value, Value)> = Vec::new();
    let mut i: usize = 0;
    while i < entries.len()
        invariant
            i <= entries.len(),
            out@.len() == i,
            forall|j: int|
                0 <= j < i ==> out@[j].0@ == entries@[j].0@ && out@[j].1@ == entries@[j].1@,
        decreases entries.len() - i,
    {
        let k = entries[i].0.duplicate();
        let v = entries[i].1.duplicate();
        out.push((k, v));
        i += 1;
    }
    assert(entry_models(out@) =~= entry_models(entries@));
    out
}

} // verus!
