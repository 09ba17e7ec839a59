//! What maps and sets ask of their keys and members: equality, and that
//! they cannot change; and integers of any size by their bytes.

use crate::value::entry_models;
use crate::value::lemma_model_unfold;
use crate::value::models;
use crate::value::Item;
use crate::value::Value;
use crate::wire::be_bytes;
use crate::wire::be_minimal;
use crate::wire::be_value;
use crate::wire::be_width;
use crate::wire::lemma_be_bytes_of_value;
use crate::wire::lemma_be_value_leading_zero;
use crate::wire::lemma_be_value_nonzero_lead;
use crate::wire::lemma_be_value_of_bytes;
use crate::wire::lemma_be_width_bound;
use crate::wire::u64_to_be;
use vstd::prelude::*;

verus! {

/// Whether a value has an identity of its own, so that sharing it means
/// sharing the one object.
pub open spec fn is_mutable(item: Item) -> bool {
    item is Array || item is Dict || item is MutableSet || item is ByteArray || item is Tag
}

/// Whether a value can be a key of a map or a member of a set.
pub open spec fn hashable(item: Item) -> bool
    decreases item,
{
    match item {
        Item::Array(_) => false,
        Item::Dict(_) => false,
        Item::MutableSet(_) => false,
        Item::ByteArray(_) => false,
        Item::Shared(_) => false,
        Item::Tuple(items) => every_hashable(items),
        Item::FrozenDict(entries) => every_entry_hashable(entries),
        Item::Tag(_, inner) => hashable(*inner),
        _ => true,
    }
}

/// Whether every value of the sequence can be a key or a member.
pub open spec fn every_hashable(items: Seq<Item>) -> bool
    decreases items,
{
    if items.len() == 0 {
        true
    } else {
        hashable(items.last()) && every_hashable(items.drop_last())
    }
}

/// Whether every key and every value of the entries can be a key or a
/// member.
pub open spec fn every_entry_hashable(entries: Seq<(Item, Item)>) -> bool
    decreases entries,
{
    if entries.len() == 0 {
        true
    } else {
        hashable(entries.last().0) && hashable(entries.last().1) && every_entry_hashable(
            entries.drop_last(),
        )
    }
}

/// The index of the entry with the key, if there is one.
pub open spec fn key_index(entries: Seq<(Item, Item)>, key: Item) -> Option<int>
    decreases entries.len(),
{
    if entries.len() == 0 {
        None
    } else {
        match key_index(entries.drop_last(), key) {
            Some(i) => Some(i),
            None => if entries.last().0 == key {
                Some(entries.len() - 1)
            } else {
                None
            },
        }
    }
}

/// The entries after `key` was set to `value`: a key that is there keeps
/// its place and gets the value, a new key goes to the end.
pub open spec fn dict_insert(entries: Seq<(Item, Item)>, key: Item, value: Item) -> Seq<
    (Item, Item),
> {
    match key_index(entries, key) {
        Some(i) => entries.update(i, (entries[i].0, value)),
        None => entries.push((key, value)),
    }
}

/// The members without repetition, each at its first place.
pub open spec fn distinct(items: Seq<Item>) -> Seq<Item>
    decreases items.len(),
{
    if items.len() == 0 {
        items
    } else {
        let front = distinct(items.drop_last());
        if front.contains(items.last()) {
            front
        } else {
            front.push(items.last())
        }
    }
}


/// The shortest bytes of the number that `bytes` denote: the same without
/// leading zeros.
pub fn minimal_bytes(bytes: &Vec<u8>) -> (out: Vec<u8>)
    ensures
        out@ == be_minimal(be_value(bytes@)),
        out@.len() <= bytes@.len(),
{
    let mut k: usize = 0;
    proof {
        assert(bytes@.skip(0) =~= bytes@);
    }
    while k < bytes.len() && bytes[k] == 0
        invariant
            k <= bytes.len(),
            be_value(bytes@.skip(k as int)) == be_value(bytes@),
        decreases bytes.len() - k,
    {
        proof {
            lemma_be_value_leading_zero(bytes@.skip(k as int));
            assert(bytes@.skip(k as int).skip(1) =~= bytes@.skip(k + 1));
        }
        k += 1;
    }
    let mut out: Vec<u8> = Vec::new();
    let mut i: usize = k;
    while i < bytes.len()
        invariant
            k <= i <= bytes.len(),
            out@ == bytes@.subrange(k as int, i as int),
        decreases bytes.len() - i,
    {
        out.push(bytes[i]);
        assert(bytes@.subrange(k as int, i + 1) =~= bytes@.subrange(k as int, i as int).push(
            bytes@[i as int],
        ));
        i += 1;
    }
    proof {
        assert(out@ =~= bytes@.skip(k as int));
        lemma_minimal_form(out@);
    }
    out
}

/// Bytes without a leading zero are the shortest bytes of their number.
pub proof fn lemma_minimal_form(bytes: Seq<u8>)
    requires
        bytes.len() == 0 || bytes[0] != 0,
    ensures
        bytes == be_minimal(be_value(bytes)),
{
    if bytes.len() == 0 {
        assert(be_value(bytes) == 0);
        assert(be_width(0) == 0);
        assert(be_bytes(0, 0) =~= bytes);
    } else {
        lemma_be_value_nonzero_lead(bytes);
        lemma_be_bytes_of_value(bytes);
    }
}

/// Whether two byte strings are the same.
pub fn bytes_equal(a: &Vec<u8>, b: &Vec<u8>) -> (r: bool)
    ensures
        r == (a@ == b@),
{
    if a.len() != b.len() {
        return false;
    }
    let mut i: usize = 0;
    while i < a.len()
        invariant
            a.len() == b.len(),
            i <= a.len(),
            forall|j: int| 0 <= j < i ==> a@[j] == b@[j],
        decreases a.len() - i,
    {
        if a[i] != b[i] {
            return false;
        }
        i += 1;
    }
    assert(a@ =~= b@);
    true
}

/// For an integer: whether it is negative, and the shortest bytes of the
/// number `n` that makes it `n` or `-1 - n`.
pub fn integer_parts(v: &Value) -> (r: Option<(bool, Vec<u8>)>)
    ensures
        match r {
            Some((negative, bytes)) => {
                &&& negative ==> v@ == Item::Negative(be_value(bytes@))
                &&& !negative ==> v@ == Item::Unsigned(be_value(bytes@))
                &&& bytes@ == be_minimal(be_value(bytes@))
            },
            None => !(v@ is Unsigned) && !(v@ is Negative),
        },
{
    match v {
        Value::Unsigned(n) => {
            let wide = u64_to_be(*n, 8);
            proof {
                crate::wire::lemma_radix_values();
                lemma_be_value_of_bytes(*n as nat, 8);
                lemma_minimal_twice(be_value(wide@));
            }
            Some((false, minimal_bytes(&wide)))
        },
        Value::Negative(n) => {
            let wide = u64_to_be(*n, 8);
            proof {
                crate::wire::lemma_radix_values();
                lemma_be_value_of_bytes(*n as nat, 8);
                lemma_minimal_twice(be_value(wide@));
            }
            Some((true, minimal_bytes(&wide)))
        },
        Value::BigUnsigned(b) => {
            proof {
                lemma_minimal_twice(be_value(b@));
            }
            Some((false, minimal_bytes(b)))
        },
        Value::BigNegative(b) => {
            proof {
                lemma_minimal_twice(be_value(b@));
            }
            Some((true, minimal_bytes(b)))
        },
        _ => None,
    }
}

/// The shortest bytes of a number denote the number.
pub proof fn lemma_minimal_twice(n: nat)
    ensures
        be_value(be_minimal(n)) == n,
{
    lemma_be_width_bound(n);
    lemma_be_value_of_bytes(n, be_width(n));
}

impl Value {
    /// Whether two values have the same model: the same kind and the same
    /// content, with integers compared by their number.
    pub fn equals(&self, other: &Value) -> (r: bool)
        ensures
            r == (self@ == other@),
        decreases self,
    {
        proof {
            lemma_model_unfold(*self);
            lemma_model_unfold(*other);
        }
        match (integer_parts(self), integer_parts(other)) {
            (Some(a), Some(b)) => {
                proof {
                    if a.1@ == b.1@ {
                    } else if be_value(a.1@) == be_value(b.1@) {
                    }
                }
                return a.0 == b.0 && bytes_equal(&a.1, &b.1);
            },
            (Some(_), None) => {
                return false;
            },
            (None, Some(_)) => {
                return false;
            },
            (None, None) => {},
        }
        match (self, other) {
            (Value::Bytes(a), Value::Bytes(b)) => bytes_equal(a, b),
            (Value::ByteArray(a), Value::ByteArray(b)) => bytes_equal(a, b),
            (Value::Text(a), Value::Text(b)) => *a == *b,
            (Value::Array(a), Value::Array(b)) => all_equal(a, b),
            (Value::Tuple(a), Value::Tuple(b)) => all_equal(a, b),
            (Value::MutableSet(a), Value::MutableSet(b)) => all_equal(a, b),
            (Value::FrozenSet(a), Value::FrozenSet(b)) => all_equal(a, b),
            (Value::Dict(a), Value::Dict(b)) => entries_equal(a, b),
            (Value::FrozenDict(a), Value::FrozenDict(b)) => entries_equal(a, b),
            (Value::Tag(s, a), Value::Tag(t, b)) => *s == *t && a.equals(b),
            (Value::Simple(a), Value::Simple(b)) => *a == *b,
            (Value::Bool(a), Value::Bool(b)) => *a == *b,
            (Value::Null, Value::Null) => true,
            (Value::Undefined, Value::Undefined) => true,
            (Value::Break, Value::Break) => true,
            (Value::Float(a), Value::Float(b)) => *a == *b,
            (Value::Shared(a), Value::Shared(b)) => *a == *b,
            (Value::Domain(j, a), Value::Domain(k, b)) => *j == *k && a.equals(b),
            (Value::Foreign(a), Value::Foreign(b)) => *a == *b,
            _ => false,
        }
    }

    /// Whether the value can be a key of a map or a member of a set.
    pub fn is_hashable(&self) -> (r: bool)
        ensures
            r == hashable(self@),
        decreases self,
    {
        proof {
            lemma_model_unfold(*self);
        }
        match self {
            Value::Dict(_) => {
                return false;
            },
            Value::MutableSet(_) => false,
            Value::ByteArray(_) => false,
            Value::Shared(_) => false,
            Value::Tuple(items) => all_hashable(items),
            Value::FrozenDict(entries) => entries_hashable(entries),
            Value::Tag(_, inner) => {
                return inner.is_hashable();
            },
            Value::Array(_) => {
                return false;
            },
            _ => {
                return true;
            },
        }
    }

    /// Whether the value has an identity of its own.
    pub fn is_mutable(&self) -> (r: bool)
        ensures
            r == is_mutable(self@),
    {
        match self {
            Value::Array(_) | Value::Dict(_) | Value::MutableSet(_) | Value::ByteArray(_)
            | Value::Tag(_, _) => true,
            _ => false,
        }
    }
}

/// Whether two lists hold the same values in the same order.
pub fn all_equal(a: &Vec<Value>, b: &Vec<Value>) -> (r: bool)
    ensures
        r == (models(a@) == models(b@)),
    decreases a,
{
    if a.len() != b.len() {
        assert(models(a@).len() != models(b@).len());
        return false;
    }
    let mut i: usize = 0;
    while i < a.len()
        invariant
            a.len() == b.len(),
            i <= a.len(),
            forall|j: int| 0 <= j < i ==> a@[j]@ == b@[j]@,
        decreases a.len() - i,
    {
        if !a[i].equals(&b[i]) {
            assert(models(a@)[i as int] != models(b@)[i as int]);
            return false;
        }
        i += 1;
    }
    assert(models(a@) =~= models(b@));
    true
}

/// Whether two lists of entries hold the same keys with the same values in
/// the same order.
pub fn entries_equal(a: &Vec<(Value, Value)>, b: &Vec<(Value, Value)>) -> (r: bool)
    ensures
        r == (entry_models(a@) == entry_models(b@)),
    decreases a,
{
    if a.len() != b.len() {
        assert(entry_models(a@).len() != entry_models(b@).len());
        return false;
    }
    let mut i: usize = 0;
    while i < a.len()
        invariant
            a.len() == b.len(),
            i <= a.len(),
            forall|j: int| 0 <= j < i ==> a@[j].0@ == b@[j].0@ && a@[j].1@ == b@[j].1@,
        decreases a.len() - i,
    {
        if !a[i].0.equals(&b[i].0) || !a[i].1.equals(&b[i].1) {
            assert(entry_models(a@)[i as int] != entry_models(b@)[i as int]);
            return false;
        }
        i += 1;
    }
    assert(entry_models(a@) =~= entry_models(b@));
    true
}

/// Where no key before place `i` is the key and the one at `i` is, the
/// index of the key is `i`; where none is, there is no index.
pub proof fn lemma_key_index(entries: Seq<(Item, Item)>, key: Item, i: int)
    requires
        0 <= i <= entries.len(),
        forall|j: int| 0 <= j < i ==> (#[trigger] entries[j]).0 != key,
        i < entries.len() ==> entries[i].0 == key,
    ensures
        key_index(entries, key) == if i < entries.len() {
            Some(i)
        } else {
            None
        },
    decreases entries.len(),
{
    if entries.len() > 0 {
        let front = entries.drop_last();
        if i < entries.len() - 1 {
            lemma_key_index(front, key, i);
        } else {
            lemma_key_index(front, key, front.len() as int);
        }
    }
}

/// Sets the key to the value: a key that is there keeps its place and
/// gets the value, a new key goes to the end.
pub fn insert_entry(entries: &mut Vec<(Value, Value)>, key: Value, value: Value)
    ensures
        entry_models(final(entries)@) == dict_insert(entry_models(old(entries)@), key@, value@),
{
    let ghost before = entry_models(entries@);
    let mut i: usize = 0;
    while i < entries.len()
        invariant
            i <= entries.len(),
            entries@ == old(entries)@,
            before == entry_models(entries@),
            forall|j: int| 0 <= j < i ==> (#[trigger] before[j]).0 != key@,
        decreases entries.len() - i,
    {
        if entries[i].0.equals(&key) {
            proof {
                lemma_key_index(before, key@, i as int);
            }
            let kept = entries[i].0.duplicate();
            entries.set(i, (kept, value));
            assert(entry_models(entries@) =~= before.update(i as int, (before[i as int].0, value@)));
            return ;
        }
        i += 1;
    }
    proof {
        lemma_key_index(before, key@, i as int);
        crate::value::lemma_entry_models_push(entries@, key, value);
    }
    entries.push((key, value));
}

/// Whether the list holds a value with the model of `v`.
pub fn holds(items: &Vec<Value>, v: &Value) -> (r: bool)
    ensures
        r == models(items@).contains(v@),
{
    let mut i: usize = 0;
    while i < items.len()
        invariant
            i <= items.len(),
            forall|j: int| 0 <= j < i ==> models(items@)[j] != v@,
        decreases items.len() - i,
    {
        if items[i].equals(v) {
            assert(models(items@)[i as int] == v@);
            return true;
        }
        i += 1;
    }
    false
}

/// The members without repetition, each at its first place.
pub fn distinct_values(items: &Vec<Value>) -> (out: Vec<Value>)
    ensures
        models(out@) == distinct(models(items@)),
{
    let ghost all = models(items@);
    let mut out: Vec<Value> = Vec::new();
    let mut i: usize = 0;
    proof {
        assert(all.take(0) =~= Seq::<Item>::empty());
        assert(models(out@) =~= Seq::<Item>::empty());
    }
    while i < items.len()
        invariant
            i <= items.len(),
            all == models(items@),
            models(out@) == distinct(all.take(i as int)),
        decreases items.len() - i,
    {
        proof {
            assert(all.take(i + 1).drop_last() =~= all.take(i as int));
            assert(all.take(i + 1).last() == items@[i as int]@);
        }
        if !holds(&out, &items[i]) {
            let copy = items[i].duplicate();
            proof {
                crate::value::lemma_models_push(out@, copy);
            }
            out.push(copy);
        }
        i += 1;
    }
    proof {
        assert(all.take(i as int) =~= all);
    }
    out
}

/// Whether every value of the list can be a key or a member.
pub fn all_hashable(items: &Vec<Value>) -> (r: bool)
    ensures
        r == every_hashable(models(items@)),
    decreases items,
{
    let ghost all = models(items@);
    let mut i: usize = 0;
    proof {
        assert(all.take(0) =~= Seq::<Item>::empty());
    }
    while i < items.len()
        invariant
            i <= items.len(),
            all == models(items@),
            every_hashable(all.take(i as int)),
        decreases items.len() - i,
    {
        proof {
            assert(all.take(i + 1).drop_last() =~= all.take(i as int));
            assert(all.take(i + 1).last() == items@[i as int]@);
        }
        if !items[i].is_hashable() {
            proof {
                if every_hashable(all) {
                    lemma_every_hashable_prefix(all, i + 1);
                }
            }
            return false;
        }
        i += 1;
    }
    proof {
        assert(all.take(i as int) =~= all);
    }
    true
}

/// Where all can be keys, the first `n` can.
pub proof fn lemma_every_hashable_prefix(items: Seq<Item>, n: int)
    requires
        0 <= n <= items.len(),
        every_hashable(items),
    ensures
        every_hashable(items.take(n)),
    decreases items.len(),
{
    if n < items.len() {
        lemma_every_hashable_prefix(items.drop_last(), n);
        assert(items.drop_last().take(n) =~= items.take(n));
    } else {
        assert(items.take(n) =~= items);
    }
}

/// Where all keys and values can be keys, the first `n` can.
pub proof fn lemma_every_entry_hashable_prefix(entries: Seq<(Item, Item)>, n: int)
    requires
        0 <= n <= entries.len(),
        every_entry_hashable(entries),
    ensures
        every_entry_hashable(entries.take(n)),
    decreases entries.len(),
{
    if n < entries.len() {
        lemma_every_entry_hashable_prefix(entries.drop_last(), n);
        assert(entries.drop_last().take(n) =~= entries.take(n));
    } else {
        assert(entries.take(n) =~= entries);
    }
}

/// Whether every key and value of the entries can be a key or a member.
pub fn entries_hashable(entries: &Vec<(Value, Value)>) -> (r: bool)
    ensures
        r == every_entry_hashable(entry_models(entries@)),
    decreases entries,
{
    let ghost all = entry_models(entries@);
    let mut i: usize = 0;
    proof {
        assert(all.take(0) =~= Seq::<(Item, Item)>::empty());
    }
    while i < entries.len()
        invariant
            i <= entries.len(),
            all == entry_models(entries@),
            every_entry_hashable(all.take(i as int)),
        decreases entries.len() - i,
    {
        proof {
            assert(all.take(i + 1).drop_last() =~= all.take(i as int));
            assert(all.take(i + 1).last() == (entries@[i as int].0@, entries@[i as int].1@));
        }
        if !entries[i].0.is_hashable() || !entries[i].1.is_hashable() {
            proof {
                if every_entry_hashable(all) {
                    lemma_every_entry_hashable_prefix(all, i + 1);
                }
            }
            return false;
        }
        i += 1;
    }
    proof {
        assert(all.take(i as int) =~= all);
    }
    true
}

} // verus!
