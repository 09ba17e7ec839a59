//! The small types of the value model: simple values, tags, the frozen
//! map, and the two marks `undefined` and `break`.

use crate::collections::insert_entry;
use crate::collections::key_index;
use crate::collections::lemma_key_index;
use crate::value::entry_models;
use crate::value::lemma_model_unfold;
use crate::value::Item;
use crate::value::Value;
use std::collections::hash_map::DefaultHasher;
use std::hash::Hasher;
use vstd::prelude::*;
use vstd::std_specs::hash::DefaultHasherAdditionalSpecFns;
use vstd::string::StringExecFns;

verus! {

/// The decimal digits of a natural number.
pub open spec fn decimal(n: nat) -> Seq<char>
    decreases n,
{
    if n < 10 {
        seq![(('0' as u8) + n as u8) as char]
    } else {
        decimal(n / 10).push((('0' as u8) + (n % 10) as u8) as char)
    }
}

/// The number in decimal digits, as `format!` writes an unsigned integer.
#[verifier::external_body]
pub(crate) fn format_unsigned(n: u64) -> (s: String)
    ensures
        s@ == decimal(n as nat),
{
    format!("{}", n)
}

/// The comparisons that values are asked for.
#[derive(Clone, Copy, PartialEq, Eq, Structural, Debug)]
pub enum CompareOp {
    Lt,
    Le,
    Eq,
    Ne,
    Gt,
    Ge,
}

impl CompareOp {
    /// Whether the comparison holds of two numbers.
    pub open spec fn holds(self, a: int, b: int) -> bool {
        match self {
            CompareOp::Lt => a < b,
            CompareOp::Le => a <= b,
            CompareOp::Eq => a == b,
            CompareOp::Ne => a != b,
            CompareOp::Gt => a > b,
            CompareOp::Ge => a >= b,
        }
    }

    /// Whether the comparison holds of two numbers.
    pub fn matches(self, a: u64, b: u64) -> (r: bool)
        ensures
            r == self.holds(a as int, b as int),
    {
        match self {
            CompareOp::Lt => a < b,
            CompareOp::Le => a <= b,
            CompareOp::Eq => a == b,
            CompareOp::Ne => a != b,
            CompareOp::Gt => a > b,
            CompareOp::Ge => a >= b,
        }
    }
}

/// A number was given that is no simple value.
#[derive(Clone, Copy, PartialEq, Eq, Structural, Debug)]
pub struct SimpleValueOutOfRange;

/// A simple value: a number from 0 to 255 outside the reserved range 24
/// to 31.
#[derive(Clone, Copy, PartialEq, Eq, Structural, Debug)]
pub struct CBORSimpleValue(pub u8);

impl CBORSimpleValue {
    /// Whether the number is outside the reserved range.
    pub open spec fn wf(self) -> bool {
        !(24 <= self.0 < 32)
    }

    /// The simple value of a number; fails for a number below 0, above
    /// 255 or in the reserved range 24 to 31.
    pub fn new(value: i64) -> (r: Result<CBORSimpleValue, SimpleValueOutOfRange>)
        ensures
            r is Ok <==> (0 <= value < 24 || 32 <= value <= 255),
            r matches Ok(v) ==> v.0 == value && v.wf(),
    {
        if (0 <= value && value < 24) || (32 <= value && value <= 255) {
            Ok(CBORSimpleValue(value as u8))
        } else {
            Err(SimpleValueOutOfRange)
        }
    }

    /// The number.
    pub fn value(&self) -> (r: u8)
        ensures
            r == self.0,
    {
        self.0
    }

    /// Whether the comparison holds of the numbers of two simple values.
    pub open spec fn related(self, other: CBORSimpleValue, op: CompareOp) -> bool {
        op.holds(self.0 as int, other.0 as int)
    }

    /// Whether the comparison holds of the numbers of two simple values.
    pub fn relate(&self, other: &CBORSimpleValue, op: CompareOp) -> (r: bool)
        ensures
            r == self.related(*other, op),
    {
        op.matches(self.0 as u64, other.0 as u64)
    }

    /// The comparison of this simple value with another by their numbers.
    pub fn __richcmp__(&self, other: &CBORSimpleValue, op: CompareOp) -> (r: bool)
        ensures
            r == self.related(*other, op),
    {
        self.relate(other, op)
    }

    /// The text `CBORSimpleValue(n)` with the number in decimal digits.
    pub fn __repr__(&self) -> (s: String)
        ensures
            s@ == "CBORSimpleValue("@ + decimal(self.0 as nat) + ")"@,
    {
        let mut s = String::from_str("CBORSimpleValue(");
        s.append(format_unsigned(self.0 as u64).as_str());
        s.append(")");
        s
    }

    /// The hash of the number: what the default hasher makes of the one
    /// byte.
    pub fn __hash__(&self) -> (h: u64)
        ensures
            h == DefaultHasher::spec_finish(seq![seq![self.0]]),
    {
        let mut hasher = DefaultHasher::new();
        let mut byte: Vec<u8> = Vec::new();
        byte.push(self.0);
        hasher.write(byte.as_slice());
        assert(byte@ =~= seq![self.0]);
        assert(hasher@ =~= seq![seq![self.0]]);
        hasher.finish()
    }
}

/// The type of the value `undefined`.
#[derive(Clone, Copy, PartialEq, Eq, Structural, Debug)]
pub struct UndefinedType;

impl UndefinedType {
    /// The text `undefined`.
    pub fn __repr__(&self) -> (s: &'static str)
        ensures
            s@ == "undefined"@,
    {
        "undefined"
    }

    /// `undefined` counts as false.
    pub fn __bool__(&self) -> (r: bool)
        ensures
            !r,
    {
        false
    }
}

/// The type of the mark that ends an item of indefinite length.
#[derive(Clone, Copy, PartialEq, Eq, Structural, Debug)]
pub struct BreakMarkerType;

impl BreakMarkerType {
    /// The text `break_marker`.
    pub fn __repr__(&self) -> (s: &'static str)
        ensures
            s@ == "break_marker"@,
    {
        "break_marker"
    }

    /// The break counts as true.
    pub fn __bool__(&self) -> (r: bool)
        ensures
            r,
    {
        true
    }
}

/// A tag number was given that is no natural number below 2^64.
#[derive(Clone, Copy, PartialEq, Eq, Structural, Debug)]
pub struct InvalidTagNumber;

/// A semantic tag: a number and the value it is attached to.
#[derive(Debug)]
pub struct CBORTag {
    pub tag: u64,
    pub value: Value,
}

impl View for CBORTag {
    type V = Item;

    open spec fn view(&self) -> Item {
        Item::Tag(self.tag, Box::new(self.value@))
    }
}

impl CBORTag {
    /// The tag of a number and a value.
    pub fn new_internal(tag: u64, value: Value) -> (r: CBORTag)
        ensures
            r.tag == tag,
            r.value == value,
    {
        CBORTag { tag, value }
    }

    /// The tag whose number is given as a value; fails unless that is a
    /// natural number below 2^64.
    pub fn new(tag: &Value, value: Value) -> (r: Result<CBORTag, InvalidTagNumber>)
        ensures
            match crate::parse::reference_index(tag@) {
                Some(n) => r matches Ok(t) && t.tag == n && t.value == value,
                None => r is Err,
            },
    {
        match crate::decoder::small_index(tag) {
            Some(n) => Ok(CBORTag { tag: n, value }),
            None => Err(InvalidTagNumber),
        }
    }

    /// The tag as a value.
    pub fn into_value(self) -> (v: Value)
        ensures
            v@ == self@,
    {
        Value::Tag(self.tag, Box::new(self.value))
    }

    /// Whether two tags have the same number and the same value.
    pub fn equals(&self, other: &CBORTag) -> (r: bool)
        ensures
            r == (self@ == other@),
    {
        self.tag == other.tag && self.value.equals(&other.value)
    }

    /// Whether the tag can be a key of a map: whether its value can.
    pub fn is_hashable(&self) -> (r: bool)
        ensures
            r == crate::collections::hashable(self.value@),
    {
        self.value.is_hashable()
    }
}

/// There is no entry with the key.
#[derive(Clone, Copy, PartialEq, Eq, Structural, Debug)]
pub struct KeyMissing;

/// A mapping that cannot change: keys with their values in the order in
/// which the keys came, each key once.
#[derive(Debug)]
pub struct FrozenDict {
    entries: Vec<(Value, Value)>,
}

impl View for FrozenDict {
    type V = Seq<(Item, Item)>;

    closed spec fn view(&self) -> Seq<(Item, Item)> {
        entry_models(self.entries@)
    }
}

/// The entries that come of setting the keys to their values one after the
/// other.
pub open spec fn collected(pairs: Seq<(Item, Item)>) -> Seq<(Item, Item)>
    decreases pairs.len(),
{
    if pairs.len() == 0 {
        pairs
    } else {
        crate::collections::dict_insert(
            collected(pairs.drop_last()),
            pairs.last().0,
            pairs.last().1,
        )
    }
}

impl FrozenDict {
    /// The frozen map of the pairs: as with a map, a key that comes again
    /// keeps its place and takes the later value.
    pub fn new(pairs: Vec<(Value, Value)>) -> (r: FrozenDict)
        ensures
            r@ == collected(entry_models(pairs@)),
    {
        let ghost all = entry_models(pairs@);
        let mut entries: Vec<(Value, Value)> = Vec::new();
        let mut i: usize = 0;
        proof {
            assert(all.take(0) =~= Seq::<(Item, Item)>::empty());
            assert(entry_models(entries@) =~= Seq::<(Item, Item)>::empty());
        }
        while i < pairs.len()
            invariant
                i <= pairs.len(),
                all == entry_models(pairs@),
                entry_models(entries@) == collected(all.take(i as int)),
            decreases pairs.len() - i,
        {
            proof {
                assert(all.take(i + 1).drop_last() =~= all.take(i as int));
                assert(all.take(i + 1).last() == (pairs@[i as int].0@, pairs@[i as int].1@));
            }
            let k = pairs[i].0.duplicate();
            let v = pairs[i].1.duplicate();
            insert_entry(&mut entries, k, v);
            i += 1;
        }
        proof {
            assert(all.take(i as int) =~= all);
        }
        FrozenDict { entries }
    }

    /// Number of entries.
    pub fn __len__(&self) -> (n: usize)
        ensures
            n == self@.len(),
    {
        self.entries.len()
    }

    /// The value of the key, if the map has the key.
    pub fn get(&self, key: &Value) -> (r: Option<&Value>)
        ensures
            match key_index(self@, key@) {
                Some(i) => r matches Some(v) && v@ == self@[i].1,
                None => r is None,
            },
    {
        let mut i: usize = 0;
        while i < self.entries.len()
            invariant
                i <= self.entries.len(),
                forall|j: int| 0 <= j < i ==> (#[trigger] self@[j]).0 != key@,
            decreases self.entries.len() - i,
        {
            if self.entries[i].0.equals(key) {
                proof {
                    lemma_key_index(self@, key@, i as int);
                }
                return Some(&self.entries[i].1);
            }
            i += 1;
        }
        proof {
            lemma_key_index(self@, key@, i as int);
        }
        None
    }

    /// The value of the key; fails where the map has no such key.
    pub fn __getitem__(&self, key: &Value) -> (r: Result<&Value, KeyMissing>)
        ensures
            match key_index(self@, key@) {
                Some(i) => r matches Ok(v) && v@ == self@[i].1,
                None => r is Err,
            },
    {
        match self.get(key) {
            Some(v) => Ok(v),
            None => Err(KeyMissing),
        }
    }

    /// Whether the map has the key.
    pub fn __contains__(&self, key: &Value) -> (r: bool)
        ensures
            r == key_index(self@, key@) is Some,
    {
        self.get(key).is_some()
    }

    /// Whether two frozen maps hold the same keys with the same values
    /// in the same order.
    pub fn __eq__(&self, other: &FrozenDict) -> (r: bool)
        ensures
            r == (self@ == other@),
    {
        crate::collections::entries_equal(&self.entries, &other.entries)
    }

    /// The keys in their order.
    pub fn keys(&self) -> (r: Vec<Value>)
        ensures
            crate::value::models(r@) == self@.map_values(|e: (Item, Item)| e.0),
    {
        let mut out: Vec<Value> = Vec::new();
        let mut i: usize = 0;
        while i < self.entries.len()
            invariant
                i <= self.entries.len(),
                out@.len() == i,
                forall|j: int| 0 <= j < i ==> out@[j]@ == self@[j].0,
            decreases self.entries.len() - i,
        {
            out.push(self.entries[i].0.duplicate());
            i += 1;
        }
        assert(crate::value::models(out@) =~= self@.map_values(|e: (Item, Item)| e.0));
        out
    }

    /// The keys in their order.
    pub fn __iter__(&self) -> (r: Vec<Value>)
        ensures
            crate::value::models(r@) == self@.map_values(|e: (Item, Item)| e.0),
    {
        self.keys()
    }

    /// The values in the order of their keys.
    pub fn values(&self) -> (r: Vec<Value>)
        ensures
            crate::value::models(r@) == self@.map_values(|e: (Item, Item)| e.1),
    {
        let mut out: Vec<Value> = Vec::new();
        let mut i: usize = 0;
        while i < self.entries.len()
            invariant
                i <= self.entries.len(),
                out@.len() == i,
                forall|j: int| 0 <= j < i ==> out@[j]@ == self@[j].1,
            decreases self.entries.len() - i,
        {
            out.push(self.entries[i].1.duplicate());
            i += 1;
        }
        assert(crate::value::models(out@) =~= self@.map_values(|e: (Item, Item)| e.1));
        out
    }

    /// The entries in their order.
    pub fn items(&self) -> (r: Vec<(Value, Value)>)
        ensures
            entry_models(r@) == self@,
    {
        crate::value::duplicate_entries(&self.entries)
    }

    /// The frozen map as a value.
    pub fn into_value(self) -> (v: Value)
        ensures
            v@ == Item::FrozenDict(self@),
    {
        let v = Value::FrozenDict(self.entries);
        proof {
            lemma_model_unfold(v);
        }
        v
    }
}

} // verus!
