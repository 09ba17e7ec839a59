//! The defining equations of the decoder's model, one lemma for each of
//! the functions that call each other. These functions are opaque so that
//! proofs unfold them only where they say so.

use crate::collections::dict_insert;
use crate::collections::hashable;
use crate::collections::is_mutable;
use crate::errors::DecodeError;
use crate::parse::claim;
use crate::parse::end_of_stream;
use crate::parse::finished;
use crate::parse::parse_byte_string;
use crate::parse::parse_integer;
use crate::parse::parse_special;
use crate::parse::parse_text_string;
use crate::parse::reference_index;
use crate::parse::shared_value;
use crate::parse::string_reference;
use crate::parse::take_finite_length;
use crate::parse::take_length;
use crate::parse::DecodeState;
use crate::parse::Parsed;
use crate::parse::Slot;
use crate::parse::Taken;
use crate::parse::parse_body;
use crate::parse::parse_item;
use crate::parse::parse_major;
use crate::parse::parse_items;
use crate::parse::parse_items_to_break;
use crate::parse::parse_array;
use crate::parse::parse_entry;
use crate::parse::parse_entries;
use crate::parse::parse_entries_to_break;
use crate::parse::parse_map;
use crate::parse::parse_tagged;
use crate::tags::accepts_any_context;
use crate::tags::interpreted;
use crate::tags::is_interpreted_tag;
use crate::value::Item;
use vstd::prelude::*;

verus! {

/// The defining equation of [`parse_body`].
pub proof fn lemma_parse_body(input: Seq<u8>, st: DecodeState)
    ensures
        parse_body(input, st) == ({
            if st.depth >= st.max_depth {
                Parsed::Failed(DecodeError::RecursionLimit { max_depth: st.max_depth })
            } else if input.len() == 0 {
                Parsed::Failed(end_of_stream())
            } else {
                let major = input[0] / 32;
                let subtype = input[0] % 32;
                let rest = input.skip(1);
                parse_major(rest, major, subtype, DecodeState { depth: st.depth + 1, ..st })
            }
        }),
{
    reveal(parse_body);
    reveal(parse_major);
}

/// The defining equation of [`parse_item`].
pub proof fn lemma_parse_item(input: Seq<u8>, st: DecodeState)
    ensures
        parse_item(input, st) == ({
            match parse_body(input, st) {
                Parsed::Done { value, rest, state } => Parsed::Done {
                    value,
                    rest,
                    state: finished(st.depth, state),
                },
                Parsed::Failed(e) => Parsed::Failed(e),
            }
        }),
{
    reveal(parse_item);
    reveal(parse_body);
}

/// The defining equation of [`parse_major`].
pub proof fn lemma_parse_major(input: Seq<u8>, major: u8, subtype: u8, st: DecodeState)
    ensures
        parse_major(input, major, subtype, st) == ({
            if major == 0 {
                parse_integer(input, subtype, st, false)
            } else if major == 1 {
                parse_integer(input, subtype, st, true)
            } else if major == 2 {
                parse_byte_string(input, subtype, st)
            } else if major == 3 {
                parse_text_string(input, subtype, st)
            } else if major == 4 {
                parse_array(input, subtype, st)
            } else if major == 5 {
                parse_map(input, subtype, st)
            } else if major == 6 {
                parse_tagged(input, subtype, st)
            } else {
                parse_special(input, subtype, st)
            }
        }),
{
    reveal(parse_major);
    reveal(parse_array);
    reveal(parse_map);
    reveal(parse_tagged);
}

/// The defining equation of [`parse_items`].
pub proof fn lemma_parse_items(input: Seq<u8>, count: nat, st: DecodeState, acc: Seq<Item>)
    ensures
        parse_items(input, count, st, acc) == ({
            if count == 0 {
                Parsed::Done { value: acc, rest: input, state: st }
            } else {
                match parse_item(input, st) {
                    Parsed::Failed(e) => Parsed::Failed(e),
                    Parsed::Done { value, rest, state } => if rest.len() < input.len() {
                        parse_items(rest, (count - 1) as nat, state, acc.push(value))
                    } else {
                        Parsed::Failed(end_of_stream())
                    },
                }
            }
        }),
{
    reveal(parse_item);
    reveal(parse_items);
}

/// The defining equation of [`parse_items_to_break`].
pub proof fn lemma_parse_items_to_break(input: Seq<u8>, st: DecodeState, acc: Seq<Item>)
    ensures
        parse_items_to_break(input, st, acc) == ({
            match parse_item(input, st) {
                Parsed::Failed(e) => Parsed::Failed(e),
                Parsed::Done { value, rest, state } => if value is Break {
                    Parsed::Done { value: acc, rest, state }
                } else if rest.len() < input.len() {
                    parse_items_to_break(rest, state, acc.push(value))
                } else {
                    Parsed::Failed(end_of_stream())
                },
            }
        }),
{
    reveal(parse_item);
    reveal(parse_items_to_break);
}

/// The defining equation of [`parse_array`].
pub proof fn lemma_parse_array(input: Seq<u8>, subtype: u8, st: DecodeState)
    ensures
        parse_array(input, subtype, st) == ({
            match take_length(input, subtype) {
                Taken::Missed(e) => Parsed::Failed(e),
                Taken::Got { value: length, rest } => {
                    let begun = if st.immutable {
                        st
                    } else {
                        claim(st)
                    };
                    let items = if rest.len() > input.len() {
                        Parsed::Failed(end_of_stream())
                    } else {
                        match length {
                            Some(n) => parse_items(rest, n as nat, begun, Seq::empty()),
                            None => parse_items_to_break(rest, begun, Seq::empty()),
                        }
                    };
                    match items {
                        Parsed::Failed(e) => Parsed::Failed(e),
                        Parsed::Done { value, rest, state } => Parsed::Done {
                            value: if st.immutable {
                                Item::Tuple(value)
                            } else {
                                Item::Array(value)
                            },
                            rest,
                            state,
                        },
                    }
                },
            }
        }),
{
    reveal(parse_array);
    reveal(parse_items);
    reveal(parse_items_to_break);
}

/// The defining equation of [`parse_entry`].
pub proof fn lemma_parse_entry(input: Seq<u8>, st: DecodeState, acc: Seq<(Item, Item)>, to_break: bool)
    ensures
        parse_entry(input, st, acc, to_break) == ({
            match parse_item(input, DecodeState { immutable: true, ..st }) {
                Parsed::Failed(e) => Parsed::Failed(e),
                Parsed::Done { value: key, rest, state } => {
                    let restored = DecodeState { immutable: st.immutable, ..state };
                    if to_break && key is Break {
                        Parsed::Done { value: (acc, true), rest, state: restored }
                    } else if rest.len() >= input.len() {
                        Parsed::Failed(end_of_stream())
                    } else {
                        match parse_item(rest, restored) {
                            Parsed::Failed(e) => Parsed::Failed(e),
                            Parsed::Done { value, rest: after, state: last } => if !hashable(key) {
                                Parsed::Failed(DecodeError::UnhashableKey)
                            } else {
                                Parsed::Done {
                                    value: (dict_insert(acc, key, value), false),
                                    rest: after,
                                    state: last,
                                }
                            },
                        }
                    }
                },
            }
        }),
{
    reveal(parse_entry);
    reveal(parse_item);
}

/// The defining equation of [`parse_entries`].
pub proof fn lemma_parse_entries(input: Seq<u8>, count: nat, st: DecodeState, acc: Seq<(Item, Item)>)
    ensures
        parse_entries(input, count, st, acc) == ({
            if count == 0 {
                Parsed::Done { value: acc, rest: input, state: st }
            } else {
                match parse_entry(input, st, acc, false) {
                    Parsed::Failed(e) => Parsed::Failed(e),
                    Parsed::Done { value, rest, state } => if rest.len() < input.len() {
                        parse_entries(rest, (count - 1) as nat, state, value.0)
                    } else {
                        Parsed::Failed(end_of_stream())
                    },
                }
            }
        }),
{
    reveal(parse_entry);
    reveal(parse_entries);
}

/// The defining equation of [`parse_entries_to_break`].
pub proof fn lemma_parse_entries_to_break(input: Seq<u8>, st: DecodeState, acc: Seq<(Item, Item)>)
    ensures
        parse_entries_to_break(input, st, acc) == ({
            match parse_entry(input, st, acc, true) {
                Parsed::Failed(e) => Parsed::Failed(e),
                Parsed::Done { value, rest, state } => if value.1 {
                    Parsed::Done { value: value.0, rest, state }
                } else if rest.len() < input.len() {
                    parse_entries_to_break(rest, state, value.0)
                } else {
                    Parsed::Failed(end_of_stream())
                },
            }
        }),
{
    reveal(parse_entry);
    reveal(parse_entries_to_break);
}

/// The defining equation of [`parse_map`].
pub proof fn lemma_parse_map(input: Seq<u8>, subtype: u8, st: DecodeState)
    ensures
        parse_map(input, subtype, st) == ({
            match take_length(input, subtype) {
                Taken::Missed(e) => Parsed::Failed(e),
                Taken::Got { value: length, rest } => {
                    let begun = if st.immutable {
                        st
                    } else {
                        claim(st)
                    };
                    let entries = if rest.len() > input.len() {
                        Parsed::Failed(end_of_stream())
                    } else {
                        match length {
                            Some(n) => parse_entries(rest, n as nat, begun, Seq::empty()),
                            None => parse_entries_to_break(rest, begun, Seq::empty()),
                        }
                    };
                    match entries {
                        Parsed::Failed(e) => Parsed::Failed(e),
                        Parsed::Done { value, rest, state } => if st.object_hook {
                            Parsed::Failed(DecodeError::ObjectHookFailed)
                        } else {
                            Parsed::Done {
                                value: if st.immutable {
                                    Item::FrozenDict(value)
                                } else {
                                    Item::Dict(value)
                                },
                                rest,
                                state,
                            }
                        },
                    }
                },
            }
        }),
{
    reveal(parse_map);
    reveal(parse_entries);
    reveal(parse_entries_to_break);
}

/// The defining equation of [`parse_tagged`].
pub proof fn lemma_parse_tagged(input: Seq<u8>, subtype: u8, st: DecodeState)
    ensures
        parse_tagged(input, subtype, st) == ({
            match take_finite_length(input, subtype) {
                Taken::Missed(e) => Parsed::Failed(e),
                Taken::Got { value: tag, rest } => if rest.len() > input.len() {
                    Parsed::Failed(end_of_stream())
                } else if tag == 25 {
                    match parse_item(rest, st) {
                        Parsed::Failed(e) => Parsed::Failed(e),
                        Parsed::Done { value, rest: after, state } => match reference_index(value) {
                            None => Parsed::Failed(DecodeError::InvalidReferenceIndex),
                            Some(index) => match string_reference(state.namespace, index) {
                                Err(e) => Parsed::Failed(e),
                                Ok(item) => Parsed::Done { value: item, rest: after, state },
                            },
                        },
                    }
                } else if tag == 28 {
                    let index = st.shareables.len();
                    let marked = DecodeState {
                        share_index: Some(index),
                        shareables: st.shareables.push(Slot::Pending),
                        ..st
                    };
                    match parse_item(rest, marked) {
                        Parsed::Failed(e) => Parsed::Failed(e),
                        Parsed::Done { value, rest: after, state } => Parsed::Done {
                            value: if is_mutable(value) {
                                Item::Shared(index)
                            } else {
                                value
                            },
                            rest: after,
                            state: DecodeState {
                                share_index: st.share_index,
                                shareables: if index < state.shareables.len() {
                                    state.shareables.update(index as int, Slot::Filled(value))
                                } else {
                                    state.shareables
                                },
                                ..state
                            },
                        },
                    }
                } else if tag == 29 {
                    match parse_item(rest, st) {
                        Parsed::Failed(e) => Parsed::Failed(e),
                        Parsed::Done { value, rest: after, state } => match reference_index(value) {
                            None => Parsed::Failed(DecodeError::InvalidReferenceIndex),
                            Some(index) => match shared_value(state.shareables, index) {
                                Err(e) => Parsed::Failed(e),
                                Ok(item) => Parsed::Done { value: item, rest: after, state },
                            },
                        },
                    }
                } else if tag == 256 {
                    match parse_item(rest, DecodeState { namespace: Some(Seq::empty()), ..st }) {
                        Parsed::Failed(e) => Parsed::Failed(e),
                        Parsed::Done { value, rest: after, state } => Parsed::Done {
                            value,
                            rest: after,
                            state: DecodeState { namespace: st.namespace, ..state },
                        },
                    }
                } else if tag == 55799 {
                    parse_item(rest, st)
                } else if is_interpreted_tag(tag) {
                    let context = DecodeState {
                        immutable: st.immutable || !accepts_any_context(tag),
                        ..st
                    };
                    match parse_item(rest, context) {
                        Parsed::Failed(e) => Parsed::Failed(e),
                        Parsed::Done { value, rest: after, state } => match interpreted(
                            tag,
                            value,
                            st.immutable,
                        ) {
                            Err(e) => Parsed::Failed(e),
                            Ok(item) => Parsed::Done {
                                value: item,
                                rest: after,
                                state: DecodeState { immutable: st.immutable, ..state },
                            },
                        },
                    }
                } else if st.tag_hook {
                    match parse_item(rest, DecodeState { immutable: true, ..st }) {
                        Parsed::Failed(e) => Parsed::Failed(e),
                        Parsed::Done { .. } => Parsed::Failed(DecodeError::TagHookFailed),
                    }
                } else {
                    match parse_item(rest, DecodeState { immutable: true, ..claim(st) }) {
                        Parsed::Failed(e) => Parsed::Failed(e),
                        Parsed::Done { value, rest: after, state } => Parsed::Done {
                            value: Item::Tag(tag, Box::new(value)),
                            rest: after,
                            state: DecodeState { immutable: st.immutable, ..state },
                        },
                    }
                },
            }
        }),
{
    reveal(parse_tagged);
    reveal(parse_item);
}

} // verus!
