//! The defining equations of the encoder's model, one lemma for each of
//! its functions. The functions are opaque so that proofs unfold them only
//! where they say so.

use crate::emit::after;
use crate::emit::array_body;
use crate::emit::before;
use crate::emit::container_head;
use crate::emit::container_tail;
use crate::emit::encode_entries;
use crate::emit::encode_entry;
use crate::emit::encode_item;
use crate::emit::encode_items;
use crate::emit::encode_picked;
use crate::emit::encode_picked_entries;
use crate::emit::entry_sort_keys;
use crate::emit::float_bytes;
use crate::emit::fresh_dict;
use crate::emit::fresh_list;
use crate::emit::fresh_picked;
use crate::emit::integer_bytes;
use crate::emit::map_body;
use crate::emit::map_entries;
use crate::emit::namespace_prefix;
use crate::emit::set_bytes;
use crate::emit::shared_bytes;
use crate::emit::shared_content;
use crate::emit::shared_first;
use crate::emit::simple_bytes;
use crate::emit::sort_key;
use crate::emit::sort_keys;
use crate::emit::sorted_order;
use crate::emit::string_bytes;
use crate::emit::tagged_bytes;
use crate::emit::unseen;
use crate::emit::with_namespacing;
use crate::emit::with_referencing;
use crate::emit::EncodeState;
use crate::emit::Encoded;
use crate::emit::Keyed;
use crate::emit::Mark;
use crate::domain_model::domain_bytes;
use crate::errors::EncodeFault;
use crate::parse::Slot;
use crate::value::Item;
use crate::wire::head;
use vstd::prelude::*;
use vstd::utf8::encode_utf8;

verus! {

/// The defining equation of [`sort_key`].
pub proof fn lemma_sort_key(heap: Seq<Slot>, item: Item, st: EncodeState)
    ensures
        sort_key(heap, item, st) == ({
            with_referencing(
                encode_item(heap, item, EncodeState { string_referencing: false, ..st }),
                st.string_referencing,
            )
        }),
{
    reveal(sort_key);
    reveal(encode_item);
}

/// The defining equation of [`sort_keys`].
pub proof fn lemma_sort_keys(heap: Seq<Slot>, items: Seq<Item>, st: EncodeState)
    ensures
        sort_keys(heap, items, st) == ({
            if items.len() == 0 {
                Keyed::Done { keys: Seq::empty(), state: st }
            } else {
                match sort_key(heap, items[0], st) {
                    Encoded::Failed(e) => Keyed::Failed(e),
                    Encoded::Done { bytes, state } => if unseen(state.marks) <= unseen(st.marks) {
                        match sort_keys(heap, items.drop_first(), state) {
                            Keyed::Failed(e) => Keyed::Failed(e),
                            Keyed::Done { keys, state: last } => Keyed::Done {
                                keys: seq![bytes] + keys,
                                state: last,
                            },
                        }
                    } else {
                        Keyed::Failed(EncodeFault::CyclicStructure)
                    },
                }
            }
        }),
{
    reveal(sort_key);
    reveal(sort_keys);
}

/// The defining equation of [`entry_sort_keys`].
pub proof fn lemma_entry_sort_keys(heap: Seq<Slot>, entries: Seq<(Item, Item)>, st: EncodeState)
    ensures
        entry_sort_keys(heap, entries, st) == ({
            if entries.len() == 0 {
                Keyed::Done { keys: Seq::empty(), state: st }
            } else {
                match sort_key(heap, entries[0].0, st) {
                    Encoded::Failed(e) => Keyed::Failed(e),
                    Encoded::Done { bytes, state } => if unseen(state.marks) <= unseen(st.marks) {
                        match entry_sort_keys(heap, entries.drop_first(), state) {
                            Keyed::Failed(e) => Keyed::Failed(e),
                            Keyed::Done { keys, state: last } => Keyed::Done {
                                keys: seq![bytes] + keys,
                                state: last,
                            },
                        }
                    } else {
                        Keyed::Failed(EncodeFault::CyclicStructure)
                    },
                }
            }
        }),
{
    reveal(sort_key);
    reveal(entry_sort_keys);
}

/// The defining equation of [`encode_items`].
pub proof fn lemma_encode_items(heap: Seq<Slot>, items: Seq<Item>, st: EncodeState)
    ensures
        encode_items(heap, items, st) == ({
            if items.len() == 0 {
                Encoded::Done { bytes: Seq::empty(), state: st }
            } else {
                match encode_item(heap, items[0], st) {
                    Encoded::Failed(e) => Encoded::Failed(e),
                    Encoded::Done { bytes, state } => if unseen(state.marks) <= unseen(st.marks) {
                        after(bytes, encode_items(heap, items.drop_first(), state))
                    } else {
                        Encoded::Failed(EncodeFault::CyclicStructure)
                    },
                }
            }
        }),
{
    reveal(encode_items);
    reveal(encode_item);
}

/// The defining equation of [`encode_picked`].
pub proof fn lemma_encode_picked(heap: Seq<Slot>, items: Seq<Item>, order: Seq<int>, st: EncodeState)
    ensures
        encode_picked(heap, items, order, st) == ({
            if order.len() == 0 {
                Encoded::Done { bytes: Seq::empty(), state: st }
            } else if !(0 <= order[0] < items.len()) {
                Encoded::Failed(EncodeFault::InvalidContent)
            } else {
                match encode_item(heap, items[order[0]], st) {
                    Encoded::Failed(e) => Encoded::Failed(e),
                    Encoded::Done { bytes, state } => if unseen(state.marks) <= unseen(st.marks) {
                        after(bytes, encode_picked(heap, items, order.drop_first(), state))
                    } else {
                        Encoded::Failed(EncodeFault::CyclicStructure)
                    },
                }
            }
        }),
{
    reveal(encode_picked);
    reveal(encode_item);
}

/// The defining equation of [`encode_entry`].
pub proof fn lemma_encode_entry(heap: Seq<Slot>, entry: (Item, Item), st: EncodeState)
    ensures
        encode_entry(heap, entry, st) == ({
            match encode_item(heap, entry.0, st) {
                Encoded::Failed(e) => Encoded::Failed(e),
                Encoded::Done { bytes, state } => if unseen(state.marks) <= unseen(st.marks) {
                    after(bytes, encode_item(heap, entry.1, state))
                } else {
                    Encoded::Failed(EncodeFault::CyclicStructure)
                },
            }
        }),
{
    reveal(encode_entry);
    reveal(encode_item);
}

/// The defining equation of [`encode_entries`].
pub proof fn lemma_encode_entries(heap: Seq<Slot>, entries: Seq<(Item, Item)>, st: EncodeState)
    ensures
        encode_entries(heap, entries, st) == ({
            if entries.len() == 0 {
                Encoded::Done { bytes: Seq::empty(), state: st }
            } else {
                match encode_entry(heap, entries[0], st) {
                    Encoded::Failed(e) => Encoded::Failed(e),
                    Encoded::Done { bytes, state } => if unseen(state.marks) <= unseen(st.marks) {
                        after(bytes, encode_entries(heap, entries.drop_first(), state))
                    } else {
                        Encoded::Failed(EncodeFault::CyclicStructure)
                    },
                }
            }
        }),
{
    reveal(encode_entry);
    reveal(encode_entries);
}

/// The defining equation of [`encode_picked_entries`].
pub proof fn lemma_encode_picked_entries(heap: Seq<Slot>, entries: Seq<(Item, Item)>, order: Seq<int>, st: EncodeState)
    ensures
        encode_picked_entries(heap, entries, order, st) == ({
            if order.len() == 0 {
                Encoded::Done { bytes: Seq::empty(), state: st }
            } else if !(0 <= order[0] < entries.len()) {
                Encoded::Failed(EncodeFault::InvalidContent)
            } else {
                match encode_entry(heap, entries[order[0]], st) {
                    Encoded::Failed(e) => Encoded::Failed(e),
                    Encoded::Done { bytes, state } => if unseen(state.marks) <= unseen(st.marks) {
                        after(bytes, encode_picked_entries(heap, entries, order.drop_first(), state))
                    } else {
                        Encoded::Failed(EncodeFault::CyclicStructure)
                    },
                }
            }
        }),
{
    reveal(encode_entry);
    reveal(encode_picked_entries);
}

/// The defining equation of [`array_body`].
pub proof fn lemma_array_body(heap: Seq<Slot>, items: Seq<Item>, st: EncodeState)
    ensures
        array_body(heap, items, st) == ({
            after(
                container_head(4, items.len(), st),
                before(encode_items(heap, items, st), container_tail(st)),
            )
        }),
{
    reveal(array_body);
    reveal(encode_items);
}

/// The defining equation of [`map_entries`].
pub proof fn lemma_map_entries(heap: Seq<Slot>, entries: Seq<(Item, Item)>, st: EncodeState)
    ensures
        map_entries(heap, entries, st) == ({
            if st.canonical {
                match entry_sort_keys(heap, entries, st) {
                    Keyed::Failed(e) => Encoded::Failed(e),
                    Keyed::Done { keys, state } => if unseen(state.marks) <= unseen(st.marks) {
                        encode_picked_entries(heap, entries, sorted_order(keys, keys.len()), state)
                    } else {
                        Encoded::Failed(EncodeFault::CyclicStructure)
                    },
                }
            } else {
                encode_entries(heap, entries, st)
            }
        }),
{
    reveal(map_entries);
    reveal(entry_sort_keys);
    reveal(encode_entries);
    reveal(encode_picked_entries);
}

/// The defining equation of [`map_body`].
pub proof fn lemma_map_body(heap: Seq<Slot>, entries: Seq<(Item, Item)>, st: EncodeState)
    ensures
        map_body(heap, entries, st) == ({
            after(
                container_head(5, entries.len(), st),
                before(map_entries(heap, entries, st), container_tail(st)),
            )
        }),
{
    reveal(map_body);
    reveal(map_entries);
}

/// The defining equation of [`fresh_list`].
pub proof fn lemma_fresh_list(heap: Seq<Slot>, items: Seq<Item>, st: EncodeState)
    ensures
        fresh_list(heap, items, st) == ({
            if st.value_sharing && st.next_index == u64::MAX {
                Encoded::Failed(EncodeFault::InvalidContent)
            } else {
                let inner = EncodeState {
                    string_namespacing: false,
                    next_index: if st.value_sharing {
                        (st.next_index + 1) as u64
                    } else {
                        st.next_index
                    },
                    ..st
                };
                after(
                    namespace_prefix(st) + if st.value_sharing {
                        head(6, 28)
                    } else {
                        Seq::empty()
                    },
                    with_namespacing(array_body(heap, items, inner), st.string_namespacing),
                )
            }
        }),
{
    reveal(fresh_list);
    reveal(array_body);
}

/// The defining equation of [`fresh_dict`].
pub proof fn lemma_fresh_dict(heap: Seq<Slot>, entries: Seq<(Item, Item)>, st: EncodeState)
    ensures
        fresh_dict(heap, entries, st) == ({
            if st.value_sharing && st.next_index == u64::MAX {
                Encoded::Failed(EncodeFault::InvalidContent)
            } else {
                let inner = EncodeState {
                    string_namespacing: false,
                    next_index: if st.value_sharing {
                        (st.next_index + 1) as u64
                    } else {
                        st.next_index
                    },
                    ..st
                };
                after(
                    namespace_prefix(st) + if st.value_sharing {
                        head(6, 28)
                    } else {
                        Seq::empty()
                    },
                    with_namespacing(map_body(heap, entries, inner), st.string_namespacing),
                )
            }
        }),
{
    reveal(fresh_dict);
    reveal(map_body);
}

/// The defining equation of [`fresh_picked`].
pub proof fn lemma_fresh_picked(heap: Seq<Slot>, items: Seq<Item>, order: Seq<int>, st: EncodeState)
    ensures
        fresh_picked(heap, items, order, st) == ({
            if st.value_sharing && st.next_index == u64::MAX {
                Encoded::Failed(EncodeFault::InvalidContent)
            } else {
                let inner = EncodeState {
                    string_namespacing: false,
                    next_index: if st.value_sharing {
                        (st.next_index + 1) as u64
                    } else {
                        st.next_index
                    },
                    ..st
                };
                after(
                    namespace_prefix(st) + if st.value_sharing {
                        head(6, 28)
                    } else {
                        Seq::empty()
                    } + container_head(4, items.len(), st),
                    with_namespacing(
                        before(encode_picked(heap, items, order, inner), container_tail(st)),
                        st.string_namespacing,
                    ),
                )
            }
        }),
{
    reveal(fresh_picked);
    reveal(encode_picked);
}

/// The defining equation of [`set_bytes`].
pub proof fn lemma_set_bytes(heap: Seq<Slot>, items: Seq<Item>, st: EncodeState)
    ensures
        set_bytes(heap, items, st) == ({
            if st.canonical {
                match sort_keys(heap, items, st) {
                    Keyed::Failed(e) => Encoded::Failed(e),
                    Keyed::Done { keys, state } => if unseen(state.marks) <= unseen(st.marks) {
                        after(
                            head(6, 258),
                            fresh_picked(heap, items, sorted_order(keys, keys.len()), state),
                        )
                    } else {
                        Encoded::Failed(EncodeFault::CyclicStructure)
                    },
                }
            } else {
                after(head(6, 258), fresh_list(heap, items, st))
            }
        }),
{
    reveal(set_bytes);
    reveal(sort_keys);
    reveal(fresh_list);
    reveal(fresh_picked);
}

/// The defining equation of [`shared_content`].
pub proof fn lemma_shared_content(heap: Seq<Slot>, content: Item, st: EncodeState)
    ensures
        shared_content(heap, content, st) == ({
            match content {
                Item::Array(items) => array_body(heap, items, st),
                Item::Tuple(items) => array_body(heap, items, st),
                Item::Dict(entries) => map_body(heap, entries, st),
                Item::FrozenDict(entries) => map_body(heap, entries, st),
                _ => encode_item(heap, content, st),
            }
        }),
{
    reveal(shared_content);
    reveal(array_body);
    reveal(map_body);
    reveal(encode_item);
}

/// The defining equation of [`shared_first`].
pub proof fn lemma_shared_first(heap: Seq<Slot>, i: nat, content: Item, st: EncodeState)
    ensures
        shared_first(heap, i, content, st) == ({
            if st.value_sharing && st.next_index == u64::MAX {
                Encoded::Failed(EncodeFault::InvalidContent)
            } else if i >= st.marks.len() {
                Encoded::Failed(EncodeFault::DanglingReference { index: i as usize })
            } else {
                let inner = EncodeState {
                    string_namespacing: false,
                    marks: st.marks.update(
                        i as int,
                        if st.value_sharing {
                            Mark::Indexed(st.next_index)
                        } else {
                            Mark::Active
                        },
                    ),
                    next_index: if st.value_sharing {
                        (st.next_index + 1) as u64
                    } else {
                        st.next_index
                    },
                    ..st
                };
                if unseen(inner.marks) < unseen(st.marks) {
                    match shared_content(heap, content, inner) {
                        Encoded::Failed(e) => Encoded::Failed(e),
                        Encoded::Done { bytes, state } => Encoded::Done {
                            bytes: namespace_prefix(st) + if st.value_sharing {
                                head(6, 28)
                            } else {
                                Seq::empty()
                            } + bytes,
                            state: EncodeState {
                                string_namespacing: st.string_namespacing,
                                marks: if st.value_sharing || i >= state.marks.len() {
                                    state.marks
                                } else {
                                    state.marks.update(i as int, Mark::Unseen)
                                },
                                ..state
                            },
                        },
                    }
                } else {
                    Encoded::Failed(EncodeFault::CyclicStructure)
                }
            }
        }),
{
    reveal(shared_first);
    reveal(shared_content);
}

/// The defining equation of [`shared_bytes`].
pub proof fn lemma_shared_bytes(heap: Seq<Slot>, i: nat, st: EncodeState)
    ensures
        shared_bytes(heap, i, st) == ({
            if i >= heap.len() || i >= st.marks.len() || !(heap[i as int] is Filled) {
                Encoded::Failed(EncodeFault::DanglingReference { index: i as usize })
            } else {
                match st.marks[i as int] {
                    Mark::Active => Encoded::Failed(EncodeFault::CyclicStructure),
                    Mark::Indexed(n) => Encoded::Done {
                        bytes: namespace_prefix(st) + head(6, 29) + head(0, n as nat),
                        state: st,
                    },
                    Mark::Unseen => shared_first(heap, i, heap[i as int]->Filled_0, st),
                }
            }
        }),
{
    reveal(shared_bytes);
    reveal(shared_first);
}

/// The defining equation of [`tagged_bytes`].
pub proof fn lemma_tagged_bytes(heap: Seq<Slot>, tag: u64, content: Item, st: EncodeState)
    ensures
        tagged_bytes(heap, tag, content, st) == ({
            after(
                head(6, tag as nat),
                with_referencing(
                    encode_item(
                        heap,
                        content,
                        EncodeState { string_referencing: st.string_referencing || tag == 256, ..st },
                    ),
                    st.string_referencing,
                ),
            )
        }),
{
    reveal(tagged_bytes);
    reveal(encode_item);
}

/// The defining equation of [`encode_item`].
pub proof fn lemma_encode_item(heap: Seq<Slot>, item: Item, st: EncodeState)
    ensures
        encode_item(heap, item, st) == ({
            match item {
                Item::Unsigned(n) => integer_bytes(n, false, st),
                Item::Negative(n) => integer_bytes(n, true, st),
                Item::Bytes(b) => string_bytes(item, 2, b, st),
                Item::ByteArray(b) => Encoded::Done { bytes: head(2, b.len()) + b, state: st },
                Item::Text(s) => string_bytes(item, 3, encode_utf8(s), st),
                Item::Array(items) => fresh_list(heap, items, st),
                Item::Tuple(items) => fresh_list(heap, items, st),
                Item::Dict(entries) => fresh_dict(heap, entries, st),
                Item::FrozenDict(entries) => fresh_dict(heap, entries, st),
                Item::MutableSet(items) => set_bytes(heap, items, st),
                Item::FrozenSet(items) => set_bytes(heap, items, st),
                Item::Tag(tag, content) => tagged_bytes(heap, tag, *content, st),
                Item::Simple(value) => if 24 <= value < 32 {
                    Encoded::Failed(EncodeFault::InvalidContent)
                } else {
                    Encoded::Done { bytes: simple_bytes(value), state: st }
                },
                Item::Bool(b) => Encoded::Done {
                    bytes: seq![
                        if b {
                            0xf5u8
                        } else {
                            0xf4u8
                        },
                    ],
                    state: st,
                },
                Item::Null => Encoded::Done { bytes: seq![0xf6u8], state: st },
                Item::Undefined => Encoded::Done { bytes: seq![0xf7u8], state: st },
                Item::Break => Encoded::Done { bytes: seq![0xffu8], state: st },
                Item::Float(d) => Encoded::Done { bytes: float_bytes(d, st.canonical), state: st },
                Item::Shared(i) => shared_bytes(heap, i, st),
                Item::Domain(kind, content) => crate::domain_model::domain_bytes(kind, *content, st),
                Item::Foreign(name) => if st.fallback {
                    Encoded::Failed(EncodeFault::DefaultHookFailed)
                } else {
                    Encoded::Failed(EncodeFault::UnsupportedType { name })
                },
            }
        }),
{
    reveal(encode_item);
    reveal(fresh_list);
    reveal(fresh_dict);
    reveal(set_bytes);
    reveal(shared_bytes);
    reveal(tagged_bytes);
}

} // verus!
