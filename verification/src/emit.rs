//! What a value encodes to: the encoder as a mathematical function.
//!
//! [`encode_item`] maps a value, the table of shared values that its
//! references point into, and the state of the encoder to the bytes written
//! and the state after, or to the failure. The executable encoder is proved
//! to compute it.

use crate::errors::EncodeFault;
use crate::floats::is_infinite;
use crate::floats::is_nan;
use crate::floats::is_negative;
use crate::floats::narrow;
use crate::floats::Precision;
use crate::parse::admission_threshold;
use crate::parse::Slot;
use crate::value::Item;
use crate::wire::be_bytes;
use crate::wire::be_minimal;
use crate::wire::head;
use crate::wire::indefinite_head;
use crate::wire::radix;
use vstd::prelude::*;
use vstd::utf8::encode_utf8;

verus! {

/// What the encoder knows of one entry of the table of shared values.
pub enum Mark {
    /// Not met so far.
    Unseen,
    /// Being encoded right now, and value sharing is off.
    Active,
    /// Written with a shareable marker; the number is the index that
    /// references to it carry.
    Indexed(u64),
}

/// The state that the encoder carries from value to value.
pub struct EncodeState {
    pub value_sharing: bool,
    pub canonical: bool,
    pub string_referencing: bool,
    pub string_namespacing: bool,
    pub indefinite_containers: bool,
    pub datetime_as_timestamp: bool,
    pub date_as_datetime: bool,
    /// Whether a default time zone is set.
    pub timezone: bool,
    /// What is known of each entry of the table of shared values.
    pub marks: Seq<Mark>,
    /// The index that the next shareable marker stands for.
    pub next_index: u64,
    /// The strings written so far that references may name, in the order
    /// of their indices.
    pub strings: Seq<Item>,
    /// Whether a fallback waits for the values that the encoder has no
    /// encoding for.
    pub fallback: bool,
}

/// Outcome of encoding.
pub enum Encoded {
    Done { bytes: Seq<u8>, state: EncodeState },
    Failed(EncodeFault),
}

/// Whether a failure of the model marks the place where the fallback is
/// called.
///
/// The model cannot say what the fallback writes, so it stops where the
/// encoder calls it, with the failure of the fallback. What the encoder
/// does from there on is the fallback's to decide. Without a fallback no
/// failure is such a mark.
pub open spec fn at_fallback(st: EncodeState, e: EncodeFault) -> bool {
    st.fallback && e is DefaultHookFailed
}

/// Whether the model, begun in state `st`, stopped where the fallback is
/// called.
pub open spec fn gave_way(st: EncodeState, outcome: Encoded) -> bool {
    outcome matches Encoded::Failed(e) && at_fallback(st, e)
}

/// Number of entries not met so far.
pub open spec fn unseen(marks: Seq<Mark>) -> nat
    decreases marks.len(),
{
    if marks.len() == 0 {
        0
    } else {
        unseen(marks.drop_last()) + if marks.last() is Unseen {
            1nat
        } else {
            0nat
        }
    }
}

/// The outcome with `front` put before its bytes.
pub open spec fn after(front: Seq<u8>, r: Encoded) -> Encoded {
    match r {
        Encoded::Done { bytes, state } => Encoded::Done { bytes: front + bytes, state },
        Encoded::Failed(e) => Encoded::Failed(e),
    }
}

/// The outcome with `back` put behind its bytes.
pub open spec fn before(r: Encoded, back: Seq<u8>) -> Encoded {
    match r {
        Encoded::Done { bytes, state } => Encoded::Done { bytes: bytes + back, state },
        Encoded::Failed(e) => Encoded::Failed(e),
    }
}

/// The place of the first of `items` that is `x`.
pub open spec fn position(items: Seq<Item>, x: Item) -> Option<int>
    decreases items.len(),
{
    if items.len() == 0 {
        None
    } else {
        match position(items.drop_last(), x) {
            Some(i) => Some(i),
            None => if items.last() == x {
                Some(items.len() - 1)
            } else {
                None
            },
        }
    }
}

/// A floating-point number: NaN and the infinities in their fixed
/// half-precision form; otherwise, in canonical mode, the narrowest of half,
/// single and double precision that holds the number exactly; otherwise
/// double precision.
#[verifier::opaque]
pub open spec fn float_bytes(d: u64, canonical: bool) -> Seq<u8> {
    if is_nan(d) {
        seq![0xf9u8, 0x7e, 0x00]
    } else if is_infinite(d) {
        if is_negative(d) {
            seq![0xf9u8, 0xfc, 0x00]
        } else {
            seq![0xf9u8, 0x7c, 0x00]
        }
    } else if canonical && narrow(Precision::Half, d) is Some {
        seq![0xf9u8] + be_bytes(narrow(Precision::Half, d)->0, 2)
    } else if canonical && narrow(Precision::Single, d) is Some {
        seq![0xfau8] + be_bytes(narrow(Precision::Single, d)->0, 4)
    } else {
        seq![0xfbu8] + be_bytes(d as nat, 8)
    }
}

/// An integer `n` or `-1 - n` of any size: in the length field of major
/// type 0 or 1 below 2^64, and from there on as tag 2 or 3 around the
/// shortest big-endian bytes of `n`.
pub open spec fn integer_bytes(n: nat, negative: bool, st: EncodeState) -> Encoded {
    if n < radix(8) {
        Encoded::Done {
            bytes: head(
                if negative {
                    1
                } else {
                    0
                },
                n,
            ),
            state: st,
        }
    } else {
        after(
            head(
                6,
                if negative {
                    3
                } else {
                    2
                },
            ),
            string_bytes(Item::Bytes(be_minimal(n)), 2, be_minimal(n), st),
        )
    }
}

/// A byte or text string with its `payload`: a reference to the string
/// where string referencing is on and the string has an index; otherwise
/// the header with the length and the payload, and the string gets the next
/// index if string referencing is on and the payload is long enough.
pub open spec fn string_bytes(item: Item, major: u8, payload: Seq<u8>, st: EncodeState)
    -> Encoded {
    if !st.string_referencing {
        Encoded::Done { bytes: head(major, payload.len()) + payload, state: st }
    } else {
        match position(st.strings, item) {
            Some(i) => Encoded::Done { bytes: head(6, 25) + head(0, i as nat), state: st },
            None => Encoded::Done {
                bytes: head(major, payload.len()) + payload,
                state: if payload.len() >= admission_threshold(st.strings.len()) {
                    EncodeState { strings: st.strings.push(item), ..st }
                } else {
                    st
                },
            },
        }
    }
}

/// A simple value.
pub open spec fn simple_bytes(value: u8) -> Seq<u8> {
    if value < 24 {
        seq![(0xe0 + value) as u8]
    } else {
        seq![0xf8u8, value]
    }
}

/// The outcome with the flag for string namespacing set to `flag`.
pub open spec fn with_namespacing(r: Encoded, flag: bool) -> Encoded {
    match r {
        Encoded::Done { bytes, state } => Encoded::Done {
            bytes,
            state: EncodeState { string_namespacing: flag, ..state },
        },
        Encoded::Failed(e) => Encoded::Failed(e),
    }
}

/// The outcome with the flag for string referencing set to `flag`.
pub open spec fn with_referencing(r: Encoded, flag: bool) -> Encoded {
    match r {
        Encoded::Done { bytes, state } => Encoded::Done {
            bytes,
            state: EncodeState { string_referencing: flag, ..state },
        },
        Encoded::Failed(e) => Encoded::Failed(e),
    }
}

/// What opens a container: tag 256 where string namespacing is on.
pub open spec fn namespace_prefix(st: EncodeState) -> Seq<u8> {
    if st.string_namespacing {
        head(6, 256)
    } else {
        Seq::empty()
    }
}

/// The header of an array or map with `count` members.
pub open spec fn container_head(major: u8, count: nat, st: EncodeState) -> Seq<u8> {
    if st.indefinite_containers {
        indefinite_head(major)
    } else {
        head(major, count)
    }
}

/// What closes an array or map.
pub open spec fn container_tail(st: EncodeState) -> Seq<u8> {
    if st.indefinite_containers {
        seq![0xffu8]
    } else {
        Seq::empty()
    }
}

/// Whether byte string `a` comes before `b` or is `b`, byte by byte.
pub open spec fn bytes_le(a: Seq<u8>, b: Seq<u8>) -> bool
    decreases a.len(),
{
    if a.len() == 0 {
        true
    } else if b.len() == 0 {
        false
    } else if a[0] != b[0] {
        a[0] < b[0]
    } else {
        bytes_le(a.drop_first(), b.drop_first())
    }
}

/// The order of canonical keys: the shorter first, and of two of one
/// length the one that comes first byte by byte.
pub open spec fn key_le(a: Seq<u8>, b: Seq<u8>) -> bool {
    a.len() < b.len() || (a.len() == b.len() && bytes_le(a, b))
}

/// The places `order`, which are sorted by their keys, with place `i` put
/// in behind every place whose key is not larger.
pub open spec fn placed(order: Seq<int>, keys: Seq<Seq<u8>>, i: int) -> Seq<int>
    decreases order.len(),
{
    if order.len() == 0 {
        seq![i]
    } else if key_le(keys[order.last()], keys[i]) {
        order.push(i)
    } else {
        placed(order.drop_last(), keys, i).push(order.last())
    }
}

/// The first `n` places sorted by their keys; places with the same key
/// stay in their order.
pub open spec fn sorted_order(keys: Seq<Seq<u8>>, n: nat) -> Seq<int>
    decreases n,
{
    if n == 0 {
        Seq::empty()
    } else {
        placed(sorted_order(keys, (n - 1) as nat), keys, n - 1)
    }
}

/// The bytes by which a key or member is sorted in canonical mode: its
/// encoding with string referencing off.
#[verifier::opaque]
pub open spec fn sort_key(heap: Seq<Slot>, item: Item, st: EncodeState) -> Encoded
    decreases unseen(st.marks), item, 10nat, 0nat,
{
    with_referencing(
        encode_item(heap, item, EncodeState { string_referencing: false, ..st }),
        st.string_referencing,
    )
}

/// Outcome of computing sort keys.
pub enum Keyed {
    Done { keys: Seq<Seq<u8>>, state: EncodeState },
    Failed(EncodeFault),
}

/// Whether the model, begun in state `st`, stopped at the fallback while it
/// made sort keys.
pub open spec fn keys_gave_way(st: EncodeState, outcome: Keyed) -> bool {
    outcome matches Keyed::Failed(e) && at_fallback(st, e)
}

/// The sort keys of the items, one after the other.
#[verifier::opaque]
pub open spec fn sort_keys(heap: Seq<Slot>, items: Seq<Item>, st: EncodeState) -> Keyed
    decreases unseen(st.marks), items, 4nat, 0nat,
{
    if items.len() == 0 {
        Keyed::Done { keys: Seq::empty(), state: st }
    } else {
        match sort_key(heap, items[0], st) {
            Encoded::Failed(e) => Keyed::Failed(e),
            Encoded::Done { bytes, state } => if unseen(state.marks) <= unseen(st.marks) {
                match sort_keys(heap, items.drop_first(), state) {
                    Keyed::Failed(e) => Keyed::Failed(e),
                    Keyed::Done { keys, state: last } => Keyed::Done {
                        keys: seq![bytes] + keys,
                        state: last,
                    },
                }
            } else {
                Keyed::Failed(EncodeFault::CyclicStructure)
            },
        }
    }
}

/// The sort keys of the keys of the entries, one after the other.
#[verifier::opaque]
pub open spec fn entry_sort_keys(heap: Seq<Slot>, entries: Seq<(Item, Item)>, st: EncodeState)
    -> Keyed
    decreases unseen(st.marks), entries, 4nat, 0nat,
{
    if entries.len() == 0 {
        Keyed::Done { keys: Seq::empty(), state: st }
    } else {
        match sort_key(heap, entries[0].0, st) {
            Encoded::Failed(e) => Keyed::Failed(e),
            Encoded::Done { bytes, state } => if unseen(state.marks) <= unseen(st.marks) {
                match entry_sort_keys(heap, entries.drop_first(), state) {
                    Keyed::Failed(e) => Keyed::Failed(e),
                    Keyed::Done { keys, state: last } => Keyed::Done {
                        keys: seq![bytes] + keys,
                        state: last,
                    },
                }
            } else {
                Keyed::Failed(EncodeFault::CyclicStructure)
            },
        }
    }
}

/// The items one after the other.
#[verifier::opaque]
pub open spec fn encode_items(heap: Seq<Slot>, items: Seq<Item>, st: EncodeState) -> Encoded
    decreases unseen(st.marks), items, 4nat, 0nat,
{
    if items.len() == 0 {
        Encoded::Done { bytes: Seq::empty(), state: st }
    } else {
        match encode_item(heap, items[0], st) {
            Encoded::Failed(e) => Encoded::Failed(e),
            Encoded::Done { bytes, state } => if unseen(state.marks) <= unseen(st.marks) {
                after(bytes, encode_items(heap, items.drop_first(), state))
            } else {
                Encoded::Failed(EncodeFault::CyclicStructure)
            },
        }
    }
}

/// The items at the places that `order` names, one after the other.
#[verifier::opaque]
pub open spec fn encode_picked(
    heap: Seq<Slot>,
    items: Seq<Item>,
    order: Seq<int>,
    st: EncodeState,
) -> Encoded
    decreases unseen(st.marks), items, 0nat, order.len(),
{
    if order.len() == 0 {
        Encoded::Done { bytes: Seq::empty(), state: st }
    } else if !(0 <= order[0] < items.len()) {
        Encoded::Failed(EncodeFault::InvalidContent)
    } else {
        match encode_item(heap, items[order[0]], st) {
            Encoded::Failed(e) => Encoded::Failed(e),
            Encoded::Done { bytes, state } => if unseen(state.marks) <= unseen(st.marks) {
                after(bytes, encode_picked(heap, items, order.drop_first(), state))
            } else {
                Encoded::Failed(EncodeFault::CyclicStructure)
            },
        }
    }
}

/// One key and its value.
#[verifier::opaque]
pub open spec fn encode_entry(heap: Seq<Slot>, entry: (Item, Item), st: EncodeState) -> Encoded
    decreases unseen(st.marks), entry, 3nat, 0nat,
{
    match encode_item(heap, entry.0, st) {
        Encoded::Failed(e) => Encoded::Failed(e),
        Encoded::Done { bytes, state } => if unseen(state.marks) <= unseen(st.marks) {
            after(bytes, encode_item(heap, entry.1, state))
        } else {
            Encoded::Failed(EncodeFault::CyclicStructure)
        },
    }
}

/// The entries one after the other, each key before its value.
#[verifier::opaque]
pub open spec fn encode_entries(heap: Seq<Slot>, entries: Seq<(Item, Item)>, st: EncodeState)
    -> Encoded
    decreases unseen(st.marks), entries, 4nat, 0nat,
{
    if entries.len() == 0 {
        Encoded::Done { bytes: Seq::empty(), state: st }
    } else {
        match encode_entry(heap, entries[0], st) {
            Encoded::Failed(e) => Encoded::Failed(e),
            Encoded::Done { bytes, state } => if unseen(state.marks) <= unseen(st.marks) {
                after(bytes, encode_entries(heap, entries.drop_first(), state))
            } else {
                Encoded::Failed(EncodeFault::CyclicStructure)
            },
        }
    }
}

/// The entries at the places that `order` names, one after the other.
#[verifier::opaque]
pub open spec fn encode_picked_entries(
    heap: Seq<Slot>,
    entries: Seq<(Item, Item)>,
    order: Seq<int>,
    st: EncodeState,
) -> Encoded
    decreases unseen(st.marks), entries, 0nat, order.len(),
{
    if order.len() == 0 {
        Encoded::Done { bytes: Seq::empty(), state: st }
    } else if !(0 <= order[0] < entries.len()) {
        Encoded::Failed(EncodeFault::InvalidContent)
    } else {
        match encode_entry(heap, entries[order[0]], st) {
            Encoded::Failed(e) => Encoded::Failed(e),
            Encoded::Done { bytes, state } => if unseen(state.marks) <= unseen(st.marks) {
                after(bytes, encode_picked_entries(heap, entries, order.drop_first(), state))
            } else {
                Encoded::Failed(EncodeFault::CyclicStructure)
            },
        }
    }
}

/// Header, items and tail of an array.
#[verifier::opaque]
pub open spec fn array_body(heap: Seq<Slot>, items: Seq<Item>, st: EncodeState) -> Encoded
    decreases unseen(st.marks), items, 5nat, 0nat,
{
    after(
        container_head(4, items.len(), st),
        before(encode_items(heap, items, st), container_tail(st)),
    )
}

/// The entries of a map: in canonical mode sorted by the sort keys of
/// their keys, otherwise in their own order.
#[verifier::opaque]
pub open spec fn map_entries(heap: Seq<Slot>, entries: Seq<(Item, Item)>, st: EncodeState)
    -> Encoded
    decreases unseen(st.marks), entries, 4nat, 1nat,
{
    if st.canonical {
        match entry_sort_keys(heap, entries, st) {
            Keyed::Failed(e) => Encoded::Failed(e),
            Keyed::Done { keys, state } => if unseen(state.marks) <= unseen(st.marks) {
                encode_picked_entries(heap, entries, sorted_order(keys, keys.len()), state)
            } else {
                Encoded::Failed(EncodeFault::CyclicStructure)
            },
        }
    } else {
        encode_entries(heap, entries, st)
    }
}

/// Header, entries and tail of a map.
#[verifier::opaque]
pub open spec fn map_body(heap: Seq<Slot>, entries: Seq<(Item, Item)>, st: EncodeState) -> Encoded
    decreases unseen(st.marks), entries, 5nat, 0nat,
{
    after(
        container_head(5, entries.len(), st),
        before(map_entries(heap, entries, st), container_tail(st)),
    )
}

/// A container that is met for the first and only time: the namespace
/// prefix, the shareable marker where value sharing is on, and the body.
/// String namespacing is off inside and as before afterwards.
#[verifier::opaque]
pub open spec fn fresh_list(heap: Seq<Slot>, items: Seq<Item>, st: EncodeState) -> Encoded
    decreases unseen(st.marks), items, 6nat, 0nat,
{
    if st.value_sharing && st.next_index == u64::MAX {
        Encoded::Failed(EncodeFault::InvalidContent)
    } else {
        let inner = EncodeState {
            string_namespacing: false,
            next_index: if st.value_sharing {
                (st.next_index + 1) as u64
            } else {
                st.next_index
            },
            ..st
        };
        after(
            namespace_prefix(st) + if st.value_sharing {
                head(6, 28)
            } else {
                Seq::empty()
            },
            with_namespacing(array_body(heap, items, inner), st.string_namespacing),
        )
    }
}

/// As [`fresh_list`], for a map.
#[verifier::opaque]
pub open spec fn fresh_dict(heap: Seq<Slot>, entries: Seq<(Item, Item)>, st: EncodeState)
    -> Encoded
    decreases unseen(st.marks), entries, 6nat, 0nat,
{
    if st.value_sharing && st.next_index == u64::MAX {
        Encoded::Failed(EncodeFault::InvalidContent)
    } else {
        let inner = EncodeState {
            string_namespacing: false,
            next_index: if st.value_sharing {
                (st.next_index + 1) as u64
            } else {
                st.next_index
            },
            ..st
        };
        after(
            namespace_prefix(st) + if st.value_sharing {
                head(6, 28)
            } else {
                Seq::empty()
            },
            with_namespacing(map_body(heap, entries, inner), st.string_namespacing),
        )
    }
}

/// As [`fresh_list`], with the items written in the order that `order`
/// names.
#[verifier::opaque]
pub open spec fn fresh_picked(heap: Seq<Slot>, items: Seq<Item>, order: Seq<int>, st: EncodeState)
    -> Encoded
    decreases unseen(st.marks), items, 6nat, 0nat,
{
    if st.value_sharing && st.next_index == u64::MAX {
        Encoded::Failed(EncodeFault::InvalidContent)
    } else {
        let inner = EncodeState {
            string_namespacing: false,
            next_index: if st.value_sharing {
                (st.next_index + 1) as u64
            } else {
                st.next_index
            },
            ..st
        };
        after(
            namespace_prefix(st) + if st.value_sharing {
                head(6, 28)
            } else {
                Seq::empty()
            } + container_head(4, items.len(), st),
            with_namespacing(
                before(encode_picked(heap, items, order, inner), container_tail(st)),
                st.string_namespacing,
            ),
        )
    }
}

/// The members of a set as an array behind tag 258; in canonical mode
/// sorted by their sort keys.
#[verifier::opaque]
pub open spec fn set_bytes(heap: Seq<Slot>, items: Seq<Item>, st: EncodeState) -> Encoded
    decreases unseen(st.marks), items, 7nat, 0nat,
{
    if st.canonical {
        match sort_keys(heap, items, st) {
            Keyed::Failed(e) => Encoded::Failed(e),
            Keyed::Done { keys, state } => if unseen(state.marks) <= unseen(st.marks) {
                after(
                    head(6, 258),
                    fresh_picked(heap, items, sorted_order(keys, keys.len()), state),
                )
            } else {
                Encoded::Failed(EncodeFault::CyclicStructure)
            },
        }
    } else {
        after(head(6, 258), fresh_list(heap, items, st))
    }
}

/// The content of a slot of the table of shared values: an array or a map
/// without what opens a container, and any other value as it is.
#[verifier::opaque]
pub open spec fn shared_content(heap: Seq<Slot>, content: Item, st: EncodeState) -> Encoded
    decreases unseen(st.marks), content, 12nat, 0nat,
{
    match content {
        Item::Array(items) => array_body(heap, items, st),
        Item::Tuple(items) => array_body(heap, items, st),
        Item::Dict(entries) => map_body(heap, entries, st),
        Item::FrozenDict(entries) => map_body(heap, entries, st),
        _ => encode_item(heap, content, st),
    }
}

/// The value `content` of slot `i` of the table of shared values, met for
/// the first time: behind the namespace prefix and, if value sharing is on,
/// a shareable marker. The slot is marked with its index if value sharing
/// is on, and as being encoded for that time if it is off.
#[verifier::opaque]
pub open spec fn shared_first(heap: Seq<Slot>, i: nat, content: Item, st: EncodeState) -> Encoded
    decreases unseen(st.marks), Item::Shared(i), 0nat, 0nat,
{
    if st.value_sharing && st.next_index == u64::MAX {
        Encoded::Failed(EncodeFault::InvalidContent)
    } else if i >= st.marks.len() {
        Encoded::Failed(EncodeFault::DanglingReference { index: i as usize })
    } else {
        let inner = EncodeState {
            string_namespacing: false,
            marks: st.marks.update(
                i as int,
                if st.value_sharing {
                    Mark::Indexed(st.next_index)
                } else {
                    Mark::Active
                },
            ),
            next_index: if st.value_sharing {
                (st.next_index + 1) as u64
            } else {
                st.next_index
            },
            ..st
        };
        if unseen(inner.marks) < unseen(st.marks) {
            match shared_content(heap, content, inner) {
                Encoded::Failed(e) => Encoded::Failed(e),
                Encoded::Done { bytes, state } => Encoded::Done {
                    bytes: namespace_prefix(st) + if st.value_sharing {
                        head(6, 28)
                    } else {
                        Seq::empty()
                    } + bytes,
                    state: EncodeState {
                        string_namespacing: st.string_namespacing,
                        marks: if st.value_sharing || i >= state.marks.len() {
                            state.marks
                        } else {
                            state.marks.update(i as int, Mark::Unseen)
                        },
                        ..state
                    },
                },
            }
        } else {
            Encoded::Failed(EncodeFault::CyclicStructure)
        }
    }
}

/// The value in slot `i` of the table of shared values, met through a
/// reference.
///
/// A slot met before with value sharing on is written as tag 29 with its
/// index, behind the namespace prefix; a slot that is being encoded is a
/// cycle and fails; a slot not met so far is written in full.
#[verifier::opaque]
pub open spec fn shared_bytes(heap: Seq<Slot>, i: nat, st: EncodeState) -> Encoded
    decreases unseen(st.marks), Item::Shared(i), 1nat, 0nat,
{
    if i >= heap.len() || i >= st.marks.len() || !(heap[i as int] is Filled) {
        Encoded::Failed(EncodeFault::DanglingReference { index: i as usize })
    } else {
        match st.marks[i as int] {
            Mark::Active => Encoded::Failed(EncodeFault::CyclicStructure),
            Mark::Indexed(n) => Encoded::Done {
                bytes: namespace_prefix(st) + head(6, 29) + head(0, n as nat),
                state: st,
            },
            Mark::Unseen => shared_first(heap, i, heap[i as int]->Filled_0, st),
        }
    }
}

/// A tag and its content. Tag 256 turns string referencing on for the
/// content; afterwards it is as before.
#[verifier::opaque]
pub open spec fn tagged_bytes(heap: Seq<Slot>, tag: u64, content: Item, st: EncodeState)
    -> Encoded
    decreases unseen(st.marks), content, 9nat, 0nat,
{
    after(
        head(6, tag as nat),
        with_referencing(
            encode_item(
                heap,
                content,
                EncodeState { string_referencing: st.string_referencing || tag == 256, ..st },
            ),
            st.string_referencing,
        ),
    )
}

/// Marks for a table of `count` entries, none of them met.
pub open spec fn fresh_marks(count: nat) -> Seq<Mark> {
    Seq::new(count, |i: int| Mark::Unseen)
}

/// Encodes one value at the top level: no entry of the table of shared
/// values counts as met before, and nothing is remembered afterwards.
pub open spec fn encode_document(heap: Seq<Slot>, item: Item, st: EncodeState) -> Encoded {
    match encode_item(heap, item, EncodeState { marks: fresh_marks(heap.len()), ..st }) {
        Encoded::Done { bytes, state } => Encoded::Done {
            bytes,
            state: EncodeState {
                marks: Seq::empty(),
                next_index: 0,
                strings: Seq::empty(),
                ..state
            },
        },
        Encoded::Failed(e) => Encoded::Failed(e),
    }
}

/// Encodes one value.
#[verifier::opaque]
pub open spec fn encode_item(heap: Seq<Slot>, item: Item, st: EncodeState) -> Encoded
    decreases unseen(st.marks), item, 8nat, 0nat,
{
    match item {
        Item::Unsigned(n) => integer_bytes(n, false, st),
        Item::Negative(n) => integer_bytes(n, true, st),
        Item::Bytes(b) => string_bytes(item, 2, b, st),
        Item::ByteArray(b) => Encoded::Done { bytes: head(2, b.len()) + b, state: st },
        Item::Text(s) => string_bytes(item, 3, encode_utf8(s), st),
        Item::Array(items) => fresh_list(heap, items, st),
        Item::Tuple(items) => fresh_list(heap, items, st),
        Item::Dict(entries) => fresh_dict(heap, entries, st),
        Item::FrozenDict(entries) => fresh_dict(heap, entries, st),
        Item::MutableSet(items) => set_bytes(heap, items, st),
        Item::FrozenSet(items) => set_bytes(heap, items, st),
        Item::Tag(tag, content) => tagged_bytes(heap, tag, *content, st),
        Item::Simple(value) => if 24 <= value < 32 {
            Encoded::Failed(EncodeFault::InvalidContent)
        } else {
            Encoded::Done { bytes: simple_bytes(value), state: st }
        },
        Item::Bool(b) => Encoded::Done {
            bytes: seq![
                if b {
                    0xf5u8
                } else {
                    0xf4u8
                },
            ],
            state: st,
        },
        Item::Null => Encoded::Done { bytes: seq![0xf6u8], state: st },
        Item::Undefined => Encoded::Done { bytes: seq![0xf7u8], state: st },
        Item::Break => Encoded::Done { bytes: seq![0xffu8], state: st },
        Item::Float(d) => Encoded::Done { bytes: float_bytes(d, st.canonical), state: st },
        Item::Shared(i) => shared_bytes(heap, i, st),
        Item::Domain(kind, content) => crate::domain_model::domain_bytes(kind, *content, st),
        Item::Foreign(name) => if st.fallback {
            Encoded::Failed(EncodeFault::DefaultHookFailed)
        } else {
            Encoded::Failed(EncodeFault::UnsupportedType { name })
        },
    }
}

} // verus!
