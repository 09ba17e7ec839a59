//! What holds of canonical encoding: the order of the sort keys, the
//! sorting of places by their keys, and that the bytes of a map do not
//! depend on the order in which its entries came.

use crate::emit::bytes_le;
use crate::emit::encode_entries;
use crate::emit::encode_item;
use crate::emit::encode_picked_entries;
use crate::emit::entry_sort_keys;
use crate::emit::key_le;
use crate::emit::map_entries;
use crate::emit::placed;
use crate::emit::sort_key;
use crate::emit::sorted_order;
use crate::emit::EncodeState;
use crate::emit::Encoded;
use crate::emit::Keyed;
use crate::emit_lemmas::lemma_encode_entries;
use crate::emit_lemmas::lemma_encode_item;
use crate::emit_lemmas::lemma_encode_picked_entries;
use crate::emit_lemmas::lemma_entry_sort_keys;
use crate::emit_lemmas::lemma_fresh_dict;
use crate::emit_lemmas::lemma_map_body;
use crate::emit_lemmas::lemma_map_entries;
use crate::emit_lemmas::lemma_sort_key;
use crate::parse::initial_state;
use crate::parse::Slot;
use crate::roundtrip::comes_back;
use crate::roundtrip::keys_differ;
use crate::roundtrip::lemma_depth;
use crate::roundtrip::lemma_plain;
use crate::roundtrip::lemma_scalar_round_trip;
use crate::roundtrip::plain;
use crate::text::StrErrors;
use crate::value::Item;
use crate::emit::unseen;
use crate::roundtrip::holds_no_map;
use crate::roundtrip::depth;
use crate::roundtrip::lemma_round_trip;
use crate::parse::DecodeState;
use vstd::prelude::*;
use vstd::relations::sorted_by;
use vstd::relations::total_ordering;

verus! {

/// Every byte string comes before itself or is itself.
pub proof fn lemma_bytes_le_reflexive(a: Seq<u8>)
    ensures
        bytes_le(a, a),
    decreases a.len(),
{
    if a.len() > 0 {
        lemma_bytes_le_reflexive(a.drop_first());
    }
}

/// Of two byte strings of one length, one comes before the other or is
/// the other.
pub proof fn lemma_bytes_le_total(a: Seq<u8>, b: Seq<u8>)
    requires
        a.len() == b.len(),
    ensures
        bytes_le(a, b) || bytes_le(b, a),
    decreases a.len(),
{
    if a.len() > 0 && a[0] == b[0] {
        lemma_bytes_le_total(a.drop_first(), b.drop_first());
    }
}

/// Two byte strings of one length each of which comes before the other
/// or is the other are the same.
pub proof fn lemma_bytes_le_antisymmetric(a: Seq<u8>, b: Seq<u8>)
    requires
        a.len() == b.len(),
        bytes_le(a, b),
        bytes_le(b, a),
    ensures
        a == b,
    decreases a.len(),
{
    if a.len() > 0 {
        lemma_bytes_le_antisymmetric(a.drop_first(), b.drop_first());
        assert(a =~= seq![a[0]] + a.drop_first());
        assert(b =~= seq![b[0]] + b.drop_first());
    } else {
        assert(a =~= b);
    }
}

/// Coming before or being the same carries over from one byte string to
/// the next, among byte strings of one length.
pub proof fn lemma_bytes_le_transitive(a: Seq<u8>, b: Seq<u8>, c: Seq<u8>)
    requires
        a.len() == b.len(),
        b.len() == c.len(),
        bytes_le(a, b),
        bytes_le(b, c),
    ensures
        bytes_le(a, c),
    decreases a.len(),
{
    if a.len() > 0 && a[0] == b[0] && b[0] == c[0] {
        lemma_bytes_le_transitive(a.drop_first(), b.drop_first(), c.drop_first());
    }
}

/// The order of the sort keys as a relation.
pub open spec fn key_order() -> spec_fn(Seq<u8>, Seq<u8>) -> bool {
    |a: Seq<u8>, b: Seq<u8>| key_le(a, b)
}

/// The order of the sort keys is a total order: the shorter key first,
/// and keys of one length byte by byte.
pub proof fn lemma_key_order_total()
    ensures
        total_ordering(key_order()),
{
    let r = key_order();
    assert forall|a: Seq<u8>| #[trigger] r(a, a) by {
        lemma_bytes_le_reflexive(a);
    }
    assert forall|a: Seq<u8>, b: Seq<u8>| #[trigger] r(a, b) && #[trigger] r(b, a) implies a
        == b by {
        lemma_bytes_le_antisymmetric(a, b);
    }
    assert forall|a: Seq<u8>, b: Seq<u8>, c: Seq<u8>| #[trigger] r(a, b) && #[trigger] r(
        b,
        c,
    ) implies r(a, c) by {
        if a.len() == b.len() && b.len() == c.len() {
            lemma_bytes_le_transitive(a, b, c);
        }
    }
    assert forall|a: Seq<u8>, b: Seq<u8>| #[trigger] r(a, b) || #[trigger] r(b, a) by {
        if a.len() == b.len() {
            lemma_bytes_le_total(a, b);
        }
    }
}

/// The keys at the places that `order` names.
pub open spec fn picked_keys(keys: Seq<Seq<u8>>, order: Seq<int>) -> Seq<Seq<u8>> {
    Seq::new(order.len(), |j: int| keys[order[j]])
}

/// Whether every place that `order` names is one of the first `n`.
pub open spec fn within(order: Seq<int>, n: int) -> bool {
    forall|j: int| 0 <= j < order.len() ==> 0 <= #[trigger] order[j] < n
}

/// The order of the sort keys carries over from one key to the next.
pub proof fn lemma_key_le_transitive(a: Seq<u8>, b: Seq<u8>, c: Seq<u8>)
    requires
        key_le(a, b),
        key_le(b, c),
    ensures
        key_le(a, c),
{
    if a.len() == b.len() && b.len() == c.len() {
        lemma_bytes_le_transitive(a, b, c);
    }
}

/// Of two sort keys one is not larger than the other.
pub proof fn lemma_key_le_total(a: Seq<u8>, b: Seq<u8>)
    ensures
        key_le(a, b) || key_le(b, a),
{
    if a.len() == b.len() {
        lemma_bytes_le_total(a, b);
    }
}

/// Whether the keys at the places never decrease.
pub open spec fn keys_ascend(keys: Seq<Seq<u8>>, order: Seq<int>) -> bool {
    forall|a: int, b: int|
        0 <= a < b < order.len() ==> key_le(keys[#[trigger] order[a]], keys[#[trigger] order[b]])
}

/// Putting a place in among sorted places puts it at one position, behind
/// the places whose keys are not larger and before those whose keys are
/// larger, and leaves the places sorted.
pub proof fn lemma_placed(order: Seq<int>, keys: Seq<Seq<u8>>, i: int) -> (p: int)
    requires
        within(order, keys.len() as int),
        0 <= i < keys.len(),
        keys_ascend(keys, order),
    ensures
        0 <= p <= order.len(),
        placed(order, keys, i) == order.insert(p, i),
        forall|a: int| 0 <= a < p ==> key_le(keys[#[trigger] order[a]], keys[i]),
        forall|b: int| p <= b < order.len() ==> !key_le(keys[#[trigger] order[b]], keys[i]),
        keys_ascend(keys, order.insert(p, i)),
        picked_keys(keys, order.insert(p, i)) == picked_keys(keys, order).insert(p, keys[i]),
    decreases order.len(),
{
    let p = if order.len() == 0 {
        assert(placed(order, keys, i) =~= order.insert(0, i));
        0
    } else if key_le(keys[order.last()], keys[i]) {
        assert(order.push(i) =~= order.insert(order.len() as int, i));
        assert forall|a: int| 0 <= a < order.len() implies key_le(
            keys[#[trigger] order[a]],
            keys[i],
        ) by {
            if a < order.len() - 1 {
                assert(key_le(keys[order[a]], keys[order[order.len() - 1]]));
                lemma_key_le_transitive(keys[order[a]], keys[order.last()], keys[i]);
            }
        }
        order.len() as int
    } else {
        let front = order.drop_last();
        assert(keys_ascend(keys, front)) by {
            assert forall|a: int, b: int| 0 <= a < b < front.len() implies key_le(
                keys[#[trigger] front[a]],
                keys[#[trigger] front[b]],
            ) by {
                assert(key_le(keys[order[a]], keys[order[b]]));
            }
        }
        let q = lemma_placed(front, keys, i);
        assert(front.insert(q, i).push(order.last()) =~= order.insert(q, i));
        assert forall|a: int| 0 <= a < q implies key_le(keys[#[trigger] order[a]], keys[i]) by {
            assert(order[a] == front[a]);
        }
        assert forall|b: int| q <= b < order.len() implies !key_le(
            keys[#[trigger] order[b]],
            keys[i],
        ) by {
            if b < order.len() - 1 {
                assert(order[b] == front[b]);
            }
        }
        q
    };
    let after = order.insert(p, i);
    assert(picked_keys(keys, after) =~= picked_keys(keys, order).insert(p, keys[i]));
    assert forall|a: int, b: int| 0 <= a < b < after.len() implies key_le(
        keys[#[trigger] after[a]],
        keys[#[trigger] after[b]],
    ) by {
        if b < p {
            assert(key_le(keys[order[a]], keys[order[b]]));
        } else if b == p {
            assert(key_le(keys[order[a]], keys[i]));
        } else if a < p {
            assert(key_le(keys[order[a]], keys[i]));
            assert(!key_le(keys[order[b - 1]], keys[i]));
            lemma_key_le_total(keys[order[b - 1]], keys[i]);
            lemma_key_le_transitive(keys[order[a]], keys[i], keys[order[b - 1]]);
        } else if a == p {
            assert(!key_le(keys[order[b - 1]], keys[i]));
            lemma_key_le_total(keys[order[b - 1]], keys[i]);
        } else {
            assert(key_le(keys[order[a - 1]], keys[order[b - 1]]));
        }
    }
    p
}

/// The places sorted by their keys name each of the first `n` places once,
/// the keys at these places never decrease, and they are the first `n` keys
/// in another order.
pub proof fn lemma_sorted_order(keys: Seq<Seq<u8>>, n: nat)
    requires
        n <= keys.len(),
    ensures
        sorted_order(keys, n).len() == n,
        within(sorted_order(keys, n), n as int),
        keys_ascend(keys, sorted_order(keys, n)),
        sorted_by(picked_keys(keys, sorted_order(keys, n)), key_order()),
        picked_keys(keys, sorted_order(keys, n)).to_multiset() == keys.take(n as int).to_multiset(),
        sorted_order(keys, n).no_duplicates(),
    decreases n,
{
    if n == 0 {
        assert(picked_keys(keys, sorted_order(keys, 0)) =~= keys.take(0));
    } else {
        let before = sorted_order(keys, (n - 1) as nat);
        lemma_sorted_order(keys, (n - 1) as nat);
        assert(within(before, keys.len() as int));
        let p = lemma_placed(before, keys, n - 1);
        let order = before.insert(p, n - 1);
        assert(order.no_duplicates()) by {
            assert forall|i: int, j: int|
                0 <= i < order.len() && 0 <= j < order.len() && i != j implies order[i]
                != order[j] by {
                let a = if i < p {
                    i
                } else {
                    i - 1
                };
                let b = if j < p {
                    j
                } else {
                    j - 1
                };
                if i != p {
                    assert(order[i] == before[a]);
                    assert(0 <= before[a] < n - 1);
                }
                if j != p {
                    assert(order[j] == before[b]);
                    assert(0 <= before[b] < n - 1);
                }
            }
        }
        assert(within(order, n as int)) by {
            assert forall|j: int| 0 <= j < order.len() implies 0 <= #[trigger] order[j] < n by {
                if j < p {
                    assert(order[j] == before[j]);
                } else if j > p {
                    assert(order[j] == before[j - 1]);
                }
            }
        }
        vstd::seq_lib::to_multiset_insert(picked_keys(keys, before), p, keys[n - 1]);
        assert(keys.take(n as int) =~= keys.take(n - 1).push(keys[n - 1]));
        vstd::seq_lib::to_multiset_build(keys.take(n - 1), keys[n - 1]);
    }
    let order = sorted_order(keys, n);
    let picked = picked_keys(keys, order);
    assert forall|a: int, b: int| 0 <= a < b < picked.len() implies #[trigger] key_order()(
        picked[a],
        picked[b],
    ) by {
        assert(key_le(keys[order[a]], keys[order[b]]));
    }
}

/// Two sequences with the same members have the same members after
/// every member was mapped.
pub proof fn lemma_mapped_multiset<A, B>(a: Seq<A>, b: Seq<A>, f: spec_fn(A) -> B)
    requires
        a.to_multiset() == b.to_multiset(),
    ensures
        a.map_values(f).to_multiset() == b.map_values(f).to_multiset(),
    decreases a.len(),
{
    broadcast use vstd::multiset::group_multiset_axioms;

    vstd::seq_lib::to_multiset_len(a);
    vstd::seq_lib::to_multiset_len(b);
    if a.len() == 0 {
        assert(a.map_values(f) =~= b.map_values(f));
    } else {
        let x = a.last();
        let front = a.drop_last();
        assert(a =~= front.push(x));
        vstd::seq_lib::to_multiset_build(front, x);
        vstd::seq_lib::to_multiset_contains(a, x);
        vstd::seq_lib::to_multiset_contains(b, x);
        assert(a.contains(x));
        let i = choose|i: int| 0 <= i < b.len() && b[i] == x;
        let others = b.remove(i);
        vstd::seq_lib::to_multiset_remove(b, i);
        assert(front.to_multiset() =~= a.to_multiset().remove(x));
        lemma_mapped_multiset(front, others, f);
        assert(a.map_values(f) =~= front.map_values(f).push(f(x)));
        assert(b.map_values(f) =~= others.map_values(f).insert(i, f(x)));
        vstd::seq_lib::to_multiset_build(front.map_values(f), f(x));
        vstd::seq_lib::to_multiset_insert(others.map_values(f), i, f(x));
    }
}

/// Whether a value is a supported value without members: what the law
/// of the canonical order takes as a key.
pub open spec fn order_free(key: Item) -> bool {
    &&& key is Unsigned || key is Negative || key is Bytes || key is Text || key is Simple
        || key is Bool || key is Null || key is Undefined || key is Float
    &&& plain(key, true)
}

/// Whether a key is one that the law of the order speaks of: a supported
/// value without members under any options, or, without value sharing and
/// with containers of definite length, a supported value that holds no map
/// and no set.
pub open spec fn sortable(key: Item, st: EncodeState) -> bool {
    ||| order_free(key)
    ||| {
        &&& !st.value_sharing
        &&& !st.indefinite_containers
        &&& holds_no_map(key)
        &&& plain(key, true)
        &&& depth(key) < usize::MAX
    }
}

/// Whether every key of the entries is one that the law of the order
/// speaks of.
pub open spec fn keys_sortable(entries: Seq<(Item, Item)>, st: EncodeState) -> bool {
    forall|i: int| 0 <= i < entries.len() ==> sortable((#[trigger] entries[i]).0, st)
}

/// The state of a decoder that reads a key: inside a map, in the immutable
/// context, with no limit to the depth that this machine could reach.
pub open spec fn key_reader() -> DecodeState {
    DecodeState {
        depth: 1,
        immutable: true,
        ..initial_state(StrErrors::Strict, usize::MAX)
    }
}

/// The state in which sort keys are made: string referencing is off.
pub open spec fn key_state(st: EncodeState) -> EncodeState {
    EncodeState { string_referencing: false, ..st }
}

/// The sort key of a key.
pub open spec fn key_bytes_of(heap: Seq<Slot>, key: Item, st: EncodeState) -> Seq<u8> {
    encode_item(heap, key, key_state(st))->bytes
}

/// The sort keys of the keys of the entries.
pub open spec fn all_key_bytes(heap: Seq<Slot>, entries: Seq<(Item, Item)>, st: EncodeState)
    -> Seq<Seq<u8>> {
    Seq::new(entries.len(), |i: int| key_bytes_of(heap, entries[i].0, st))
}

/// The entries at the places that `order` names.
pub open spec fn picked_entries(entries: Seq<(Item, Item)>, order: Seq<int>) -> Seq<(Item, Item)> {
    Seq::new(order.len(), |j: int| entries[order[j]])
}

/// Making the sort key of a key that the law speaks of succeeds, leaves the
/// state of the encoder alone, and gives bytes from which the key can be
/// read again.
pub proof fn lemma_sort_key_of_scalar(heap: Seq<Slot>, key: Item, st: EncodeState, rest: Seq<u8>)
    requires
        sortable(key, st),
        !st.string_namespacing,
    ensures
        sort_key(heap, key, st) == (Encoded::Done {
            bytes: key_bytes_of(heap, key, st),
            state: st,
        }),
        comes_back(encode_item(heap, key, key_state(st)), key, key_state(st), key_reader(), rest),
{
    let dst = key_reader();
    if order_free(key) {
        lemma_plain(key, true);
        lemma_depth(key);
        lemma_scalar_round_trip(heap, key, key_state(st), dst, rest);
    } else {
        lemma_round_trip(heap, key, key_state(st), dst, rest);
    }
    lemma_sort_key(heap, key, st);
    let done = encode_item(heap, key, key_state(st));
    assert(EncodeState { string_referencing: st.string_referencing, ..done->state } == st);
}

/// Two keys that the law speaks of and that have the same sort key are the
/// same value.
pub proof fn lemma_sort_key_injective(heap: Seq<Slot>, a: Item, b: Item, st: EncodeState)
    requires
        sortable(a, st),
        sortable(b, st),
        !st.string_namespacing,
        key_bytes_of(heap, a, st) == key_bytes_of(heap, b, st),
    ensures
        a == b,
{
    lemma_sort_key_of_scalar(heap, a, st, Seq::empty());
    lemma_sort_key_of_scalar(heap, b, st, Seq::empty());
}

/// The sort keys of entries whose keys the law speaks of are the sort keys
/// of the keys, and making them leaves the state of the encoder alone.
pub proof fn lemma_sort_keys_of_scalars(
    heap: Seq<Slot>,
    entries: Seq<(Item, Item)>,
    st: EncodeState,
)
    requires
        keys_sortable(entries, st),
        !st.string_namespacing,
    ensures
        entry_sort_keys(heap, entries, st) == (Keyed::Done {
            keys: all_key_bytes(heap, entries, st),
            state: st,
        }),
    decreases entries.len(),
{
    lemma_entry_sort_keys(heap, entries, st);
    if entries.len() == 0 {
        assert(all_key_bytes(heap, entries, st) =~= Seq::<Seq<u8>>::empty());
    } else {
        let others = entries.drop_first();
        assert(sortable(entries[0].0, st));
        assert forall|i: int| 0 <= i < others.len() implies sortable(
            (#[trigger] others[i]).0,
            st,
        ) by {
            assert(others[i] == entries[i + 1]);
        }
        lemma_sort_key_of_scalar(heap, entries[0].0, st, Seq::empty());
        lemma_sort_keys_of_scalars(heap, others, st);
        assert(seq![key_bytes_of(heap, entries[0].0, st)] + all_key_bytes(heap, others, st)
            =~= all_key_bytes(heap, entries, st));
    }
}

/// Encoding the entries at the places that `order` names is encoding
/// the entries picked in that order.
pub proof fn lemma_picked_entries(
    heap: Seq<Slot>,
    entries: Seq<(Item, Item)>,
    order: Seq<int>,
    st: EncodeState,
)
    requires
        within(order, entries.len() as int),
    ensures
        encode_picked_entries(heap, entries, order, st) == encode_entries(
            heap,
            picked_entries(entries, order),
            st,
        ),
    decreases order.len(),
{
    let picked = picked_entries(entries, order);
    lemma_encode_picked_entries(heap, entries, order, st);
    lemma_encode_entries(heap, picked, st);
    if order.len() > 0 {
        let rest = order.drop_first();
        assert(within(rest, entries.len() as int)) by {
            assert forall|j: int| 0 <= j < rest.len() implies 0 <= #[trigger] rest[j]
                < entries.len() by {
                assert(rest[j] == order[j + 1]);
            }
        }
        assert(picked.drop_first() =~= picked_entries(entries, rest));
        assert(picked[0] == entries[order[0]]);
        match crate::emit::encode_entry(heap, entries[order[0]], st) {
            Encoded::Done { bytes, state } => {
                lemma_picked_entries(heap, entries, rest, state);
            },
            Encoded::Failed(e) => {},
        }
    }
}

/// The entries of a map in canonical mode, for keys that the law speaks
/// of: the entries in the order of their sort keys.
pub proof fn lemma_canonical_entries(heap: Seq<Slot>, entries: Seq<(Item, Item)>, st: EncodeState)
    requires
        st.canonical,
        keys_sortable(entries, st),
        !st.string_namespacing,
    ensures
        map_entries(heap, entries, st) == encode_entries(
            heap,
            picked_entries(
                entries,
                sorted_order(all_key_bytes(heap, entries, st), entries.len()),
            ),
            st,
        ),
{
    let keys = all_key_bytes(heap, entries, st);
    lemma_map_entries(heap, entries, st);
    lemma_sort_keys_of_scalars(heap, entries, st);
    lemma_sorted_order(keys, keys.len());
    lemma_picked_entries(heap, entries, sorted_order(keys, keys.len()), st);
}

/// Making the sort keys of entries gives one key for each entry.
pub proof fn lemma_one_key_each(heap: Seq<Slot>, entries: Seq<(Item, Item)>, st: EncodeState)
    ensures
        entry_sort_keys(heap, entries, st) matches Keyed::Done { keys, .. } ==> keys.len()
            == entries.len(),
    decreases entries.len(),
{
    lemma_entry_sort_keys(heap, entries, st);
    if entries.len() > 0 {
        match sort_key(heap, entries[0].0, st) {
            Encoded::Done { bytes, state } => {
                lemma_one_key_each(heap, entries.drop_first(), state);
            },
            Encoded::Failed(e) => {},
        }
    }
}

/// In canonical mode the entries of a map are written in the order of
/// their sort keys, whatever the keys are.
///
/// Where the sort keys can be made, the entries are written one after the
/// other at the places that the sorted order names. The order names every
/// entry once, so that none is lost and none comes twice, and from one
/// place to the next the sort key never decreases: the shorter key comes
/// first, and of two keys of one length the one that is smaller byte by
/// byte.
pub proof fn law_canonical_entries_ascend(
    heap: Seq<Slot>,
    entries: Seq<(Item, Item)>,
    st: EncodeState,
)
    requires
        st.canonical,
        entry_sort_keys(heap, entries, st) is Done,
    ensures
        ({
            let keys = entry_sort_keys(heap, entries, st)->keys;
            let state = entry_sort_keys(heap, entries, st)->state;
            let order = sorted_order(keys, keys.len());
            &&& keys.len() == entries.len()
            &&& order.len() == entries.len()
            &&& within(order, entries.len() as int)
            &&& order.no_duplicates()
            &&& keys_ascend(keys, order)
            &&& unseen(state.marks) <= unseen(st.marks) ==> map_entries(heap, entries, st)
                == encode_picked_entries(heap, entries, order, state)
        }),
{
    let keys = entry_sort_keys(heap, entries, st)->keys;
    lemma_one_key_each(heap, entries, st);
    lemma_map_entries(heap, entries, st);
    lemma_sorted_order(keys, keys.len());
}

/// In canonical mode the bytes of a map do not depend on the order in
/// which its entries came.
///
/// Two maps with the same entries, whose keys differ from each other, are
/// written with the same bytes and leave the encoder in the same state. The
/// keys are supported values without members, under any options; or,
/// without value sharing and with containers of definite length, supported
/// values that hold no map and no set, such as tuples of numbers and
/// strings.
pub proof fn law_canonical_map_order(
    heap: Seq<Slot>,
    first: Seq<(Item, Item)>,
    second: Seq<(Item, Item)>,
    st: EncodeState,
)
    requires
        st.canonical,
        first.to_multiset() == second.to_multiset(),
        keys_sortable(first, st),
        keys_differ(first),
    ensures
        encode_item(heap, Item::Dict(first), st) == encode_item(heap, Item::Dict(second), st),
        encode_item(heap, Item::FrozenDict(first), st) == encode_item(
            heap,
            Item::FrozenDict(second),
            st,
        ),
{
    lemma_encode_item(heap, Item::Dict(first), st);
    lemma_encode_item(heap, Item::Dict(second), st);
    lemma_encode_item(heap, Item::FrozenDict(first), st);
    lemma_encode_item(heap, Item::FrozenDict(second), st);
    lemma_fresh_dict(heap, first, st);
    lemma_fresh_dict(heap, second, st);
    let inner = EncodeState {
        string_namespacing: false,
        next_index: if st.value_sharing {
            (st.next_index + 1) as u64
        } else {
            st.next_index
        },
        ..st
    };
    lemma_map_body(heap, first, inner);
    lemma_map_body(heap, second, inner);
    vstd::seq_lib::to_multiset_len(first);
    vstd::seq_lib::to_multiset_len(second);
    assert(keys_sortable(first, inner)) by {
        assert forall|i: int| 0 <= i < first.len() implies sortable(
            (#[trigger] first[i]).0,
            inner,
        ) by {
            assert(sortable(first[i].0, st));
        }
    }
    lemma_same_entries_in_order(heap, first, second, inner);
}

/// Two maps with the same entries, whose keys are keys that the law speaks
/// of and differ from each other, have the same entries in the order of
/// their sort keys.
pub proof fn lemma_same_entries_in_order(
    heap: Seq<Slot>,
    first: Seq<(Item, Item)>,
    second: Seq<(Item, Item)>,
    st: EncodeState,
)
    requires
        st.canonical,
        first.to_multiset() == second.to_multiset(),
        keys_sortable(first, st),
        !st.string_namespacing,
        keys_differ(first),
    ensures
        map_entries(heap, first, st) == map_entries(heap, second, st),
{
    broadcast use vstd::multiset::group_multiset_axioms;

    vstd::seq_lib::to_multiset_len(first);
    vstd::seq_lib::to_multiset_len(second);
    let n = first.len();
    // every entry of the second map is an entry of the first
    assert forall|j: int| 0 <= j < second.len() implies exists|i: int|
        0 <= i < first.len() && first[i] == #[trigger] second[j] by {
        vstd::seq_lib::to_multiset_contains(second, second[j]);
        vstd::seq_lib::to_multiset_contains(first, second[j]);
        assert(second.contains(second[j]));
    }
    assert(keys_sortable(second, st)) by {
        assert forall|j: int| 0 <= j < second.len() implies sortable(
            (#[trigger] second[j]).0,
            st,
        ) by {
            let i = choose|i: int| 0 <= i < first.len() && first[i] == second[j];
            assert(sortable(first[i].0, st));
        }
    }
    let f = |e: (Item, Item)| key_bytes_of(heap, e.0, st);
    let keys1 = all_key_bytes(heap, first, st);
    let keys2 = all_key_bytes(heap, second, st);
    assert(keys1 =~= first.map_values(f));
    assert(keys2 =~= second.map_values(f));
    lemma_mapped_multiset(first, second, f);
    let order1 = sorted_order(keys1, n);
    let order2 = sorted_order(keys2, n);
    lemma_sorted_order(keys1, n);
    lemma_sorted_order(keys2, n);
    assert(keys1.take(n as int) =~= keys1);
    assert(keys2.take(n as int) =~= keys2);
    let sorted1 = picked_keys(keys1, order1);
    let sorted2 = picked_keys(keys2, order2);
    lemma_key_order_total();
    vstd::seq_lib::lemma_sorted_unique(sorted1, sorted2, key_order());
    let picked1 = picked_entries(first, order1);
    let picked2 = picked_entries(second, order2);
    assert forall|j: int| 0 <= j < n implies picked1[j] == picked2[j] by {
        let e1 = first[order1[j]];
        let e2 = second[order2[j]];
        assert(sorted1[j] == key_bytes_of(heap, e1.0, st));
        assert(sorted2[j] == key_bytes_of(heap, e2.0, st));
        let i = choose|i: int| 0 <= i < first.len() && first[i] == second[order2[j]];
        assert(sortable(first[i].0, st));
        assert(sortable(first[order1[j]].0, st));
        lemma_sort_key_injective(heap, e1.0, e2.0, st);
        if i != order1[j] {
            if i < order1[j] {
                assert(first[i].0 != first[order1[j]].0);
            } else {
                assert(first[order1[j]].0 != first[i].0);
            }
        }
    }
    assert(picked1 =~= picked2);
    lemma_canonical_entries(heap, first, st);
    lemma_canonical_entries(heap, second, st);
}

} // verus!
