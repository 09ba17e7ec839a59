//! What a byte string decodes to: the decoder as a mathematical function.
//!
//! [`parse_item`] maps the bytes ahead and the state of the decoder to the
//! item read, the bytes left and the state after, or to the failure. The
//! executable decoder is proved to compute it.

use crate::collections::dict_insert;
use crate::collections::hashable;
use crate::collections::is_mutable;
use crate::errors::DecodeError;
use crate::floats::half_to_double;
use crate::floats::single_to_double;
use crate::tags::accepts_any_context;
use crate::tags::interpreted;
use crate::tags::is_interpreted_tag;
use crate::text::text_of;
use crate::text::StrErrors;
use crate::value::Item;
use crate::wire::be_value;
use vstd::prelude::*;

verus! {

/// One entry of the table of shared values.
pub enum Slot {
    /// Made by a marker whose value has not begun.
    Pending,
    /// Claimed by a container whose members are still being read.
    Building,
    /// Holds its value.
    Filled(Item),
}

/// The state that the decoder carries from item to item.
pub struct DecodeState {
    /// Number of items that enclose the next one.
    pub depth: nat,
    /// The deepest nesting accepted.
    pub max_depth: usize,
    /// Whether containers are read as their immutable forms.
    pub immutable: bool,
    /// The slot that the next container or tag is to claim.
    pub share_index: Option<nat>,
    /// The table of shared values.
    pub shareables: Seq<Slot>,
    /// The strings that references may name, where a namespace is open.
    pub namespace: Option<Seq<Item>>,
    /// The policy for invalid UTF-8.
    pub str_errors: StrErrors,
    /// Whether a hook waits for the tags that the decoder does not
    /// interpret.
    pub tag_hook: bool,
    /// Whether a hook waits for every map.
    pub object_hook: bool,
}

/// The state in which a decoder without hooks begins.
pub open spec fn initial_state(policy: StrErrors, max_depth: usize) -> DecodeState {
    DecodeState {
        depth: 0,
        max_depth,
        immutable: false,
        share_index: None,
        shareables: Seq::empty(),
        namespace: None,
        str_errors: policy,
        tag_hook: false,
        object_hook: false,
    }
}

/// A state with the hooks that wait.
pub open spec fn with_hooks(st: DecodeState, tag_hook: bool, object_hook: bool) -> DecodeState {
    DecodeState { tag_hook, object_hook, ..st }
}

/// Whether a failure of the model marks the place where a hook is called.
///
/// The model cannot say what a hook returns, so it stops where the decoder
/// calls one: with the failure of the object hook behind a map, with the
/// failure of the tag hook behind a tag that the decoder does not
/// interpret. What the decoder returns from there on is the hook's to
/// decide. Without hooks no failure is such a mark.
pub open spec fn at_hook(st: DecodeState, e: DecodeError) -> bool {
    (st.object_hook && e is ObjectHookFailed) || (st.tag_hook && e is TagHookFailed)
}

/// Outcome of reading something that may change the decoder's state.
pub enum Parsed<T> {
    Done { value: T, rest: Seq<u8>, state: DecodeState },
    Failed(DecodeError),
}

/// Whether the model, begun in state `st`, stopped where a hook is called.
pub open spec fn stopped<T>(st: DecodeState, outcome: Parsed<T>) -> bool {
    outcome matches Parsed::Failed(e) && at_hook(st, e)
}

/// Outcome of reading something that leaves the state alone.
pub enum Taken<T> {
    Got { value: T, rest: Seq<u8> },
    Missed(DecodeError),
}

/// The failure of a source that ends early, without its byte counts.
pub open spec fn end_of_stream() -> DecodeError {
    DecodeError::PrematureEof { expected: 0, received: 0 }
}

/// The next `n` bytes.
pub open spec fn take_bytes(input: Seq<u8>, n: nat) -> Taken<Seq<u8>> {
    if input.len() < n {
        Taken::Missed(end_of_stream())
    } else {
        Taken::Got { value: input.take(n as int), rest: input.skip(n as int) }
    }
}

/// The big-endian number in the next `width` bytes.
pub open spec fn take_number(input: Seq<u8>, width: nat) -> Taken<nat> {
    match take_bytes(input, width) {
        Taken::Got { value, rest } => Taken::Got { value: be_value(value), rest },
        Taken::Missed(e) => Taken::Missed(e),
    }
}

/// The length that a subtype announces: itself below 24, the next 1, 2, 4
/// or 8 bytes for 24 to 27, none (indefinite) for 31.
pub open spec fn take_length(input: Seq<u8>, subtype: u8) -> Taken<Option<u64>> {
    if subtype < 24 {
        Taken::Got { value: Some(subtype as u64), rest: input }
    } else if subtype == 31 {
        Taken::Got { value: None, rest: input }
    } else if subtype > 27 {
        Taken::Missed(DecodeError::UnknownLengthSubtype { subtype })
    } else {
        let width: nat = if subtype == 24 {
            1
        } else if subtype == 25 {
            2
        } else if subtype == 26 {
            4
        } else {
            8
        };
        match take_number(input, width) {
            Taken::Got { value, rest } => Taken::Got { value: Some(value as u64), rest },
            Taken::Missed(e) => Taken::Missed(e),
        }
    }
}

/// A length that must be definite.
pub open spec fn take_finite_length(input: Seq<u8>, subtype: u8) -> Taken<u64> {
    match take_length(input, subtype) {
        Taken::Got { value: Some(n), rest } => Taken::Got { value: n, rest },
        Taken::Got { value: None, rest } => Taken::Missed(DecodeError::IndefiniteLengthNotAllowed),
        Taken::Missed(e) => Taken::Missed(e),
    }
}

/// The shortest string that a namespace of `count` entries admits.
pub open spec fn admission_threshold(count: nat) -> nat {
    if count < 24 {
        3
    } else if count < 256 {
        4
    } else if count < 65536 {
        5
    } else if count < 0x1_0000_0000 {
        6
    } else {
        11
    }
}

/// The namespace after a string of `length` bytes was read: the string is
/// appended where a namespace is open and the string is long enough.
pub open spec fn offer(namespace: Option<Seq<Item>>, item: Item, length: nat) -> Option<
    Seq<Item>,
> {
    match namespace {
        Some(entries) => if length >= admission_threshold(entries.len()) {
            Some(entries.push(item))
        } else {
            namespace
        },
        None => None,
    }
}

/// The state after the container or tag that begins here has claimed the
/// slot that waits for it, if one does.
pub open spec fn claim(st: DecodeState) -> DecodeState {
    match st.share_index {
        Some(i) => if i < st.shareables.len() {
            DecodeState {
                share_index: None,
                shareables: st.shareables.update(i as int, Slot::Building),
                ..st
            }
        } else {
            DecodeState { share_index: None, ..st }
        },
        None => st,
    }
}

/// The state when an item is complete: the depth is what it was before,
/// and an item at the top level leaves both registries empty.
pub open spec fn finished(depth: nat, state: DecodeState) -> DecodeState {
    if depth == 0 {
        DecodeState {
            depth: 0,
            share_index: None,
            shareables: Seq::empty(),
            namespace: None,
            ..state
        }
    } else {
        DecodeState { depth, ..state }
    }
}

/// Reads one item, up to the point where the decoder would tidy up.
///
/// The depth is checked first, then the initial byte is read and split
/// into major type and subtype, and the major type decides.
#[verifier::opaque]
pub open spec fn parse_body(input: Seq<u8>, st: DecodeState) -> Parsed<Item>
    decreases input.len(), 0nat, 0nat,
{
    if st.depth >= st.max_depth {
        Parsed::Failed(DecodeError::RecursionLimit { max_depth: st.max_depth })
    } else if input.len() == 0 {
        Parsed::Failed(end_of_stream())
    } else {
        let major = input[0] / 32;
        let subtype = input[0] % 32;
        let rest = input.skip(1);
        parse_major(rest, major, subtype, DecodeState { depth: st.depth + 1, ..st })
    }
}

/// Reads what follows the initial byte, as the major type asks.
#[verifier::opaque]
pub open spec fn parse_major(input: Seq<u8>, major: u8, subtype: u8, st: DecodeState) -> Parsed<
    Item,
>
    decreases input.len(), 4nat, 0nat,
{
    if major == 0 {
        parse_integer(input, subtype, st, false)
    } else if major == 1 {
        parse_integer(input, subtype, st, true)
    } else if major == 2 {
        parse_byte_string(input, subtype, st)
    } else if major == 3 {
        parse_text_string(input, subtype, st)
    } else if major == 4 {
        parse_array(input, subtype, st)
    } else if major == 5 {
        parse_map(input, subtype, st)
    } else if major == 6 {
        parse_tagged(input, subtype, st)
    } else {
        parse_special(input, subtype, st)
    }
}

/// Reads one item.
#[verifier::opaque]
pub open spec fn parse_item(input: Seq<u8>, st: DecodeState) -> Parsed<Item>
    decreases input.len(), 0nat, 1nat,
{
    match parse_body(input, st) {
        Parsed::Done { value, rest, state } => Parsed::Done {
            value,
            rest,
            state: finished(st.depth, state),
        },
        Parsed::Failed(e) => Parsed::Failed(e),
    }
}

/// Major types 0 and 1: the length field is the number, or `-1 - n`.
pub open spec fn parse_integer(input: Seq<u8>, subtype: u8, st: DecodeState, negative: bool)
    -> Parsed<Item> {
    match take_finite_length(input, subtype) {
        Taken::Got { value, rest } => Parsed::Done {
            value: if negative {
                Item::Negative(value as nat)
            } else {
                Item::Unsigned(value as nat)
            },
            rest,
            state: st,
        },
        Taken::Missed(e) => Parsed::Failed(e),
    }
}

/// The bytes of a string of definite length.
pub open spec fn take_payload(input: Seq<u8>, length: u64) -> Taken<Seq<u8>> {
    if length > usize::MAX {
        Taken::Missed(DecodeError::LengthTooLarge { length })
    } else {
        take_bytes(input, length as nat)
    }
}

/// The chunks of a string of indefinite length up to the break: each is a
/// string of the same major type and of definite length; their bytes are
/// joined.
pub open spec fn take_chunks(input: Seq<u8>, major: u8, acc: Seq<Seq<u8>>) -> Taken<
    Seq<Seq<u8>>,
>
    decreases input.len(),
{
    if input.len() == 0 {
        Taken::Missed(end_of_stream())
    } else if input[0] == 0xff {
        Taken::Got { value: acc, rest: input.skip(1) }
    } else if input[0] / 32 != major {
        Taken::Missed(DecodeError::WrongChunkType { wanted: major, found: input[0] / 32 })
    } else {
        match take_finite_length(input.skip(1), input[0] % 32) {
            Taken::Missed(e) => Taken::Missed(e),
            Taken::Got { value: length, rest } => if length > isize::MAX {
                Taken::Missed(DecodeError::ChunkTooLong { length })
            } else {
                match take_bytes(rest, length as nat) {
                    Taken::Missed(e) => Taken::Missed(e),
                    Taken::Got { value: chunk, rest: after } => if after.len() < input.len() {
                        take_chunks(after, major, acc.push(chunk))
                    } else {
                        Taken::Missed(end_of_stream())
                    },
                }
            },
        }
    }
}

/// All the bytes of the chunks, in order.
pub open spec fn joined(chunks: Seq<Seq<u8>>) -> Seq<u8>
    decreases chunks.len(),
{
    if chunks.len() == 0 {
        Seq::empty()
    } else {
        joined(chunks.drop_last()) + chunks.last()
    }
}

/// The text of the chunks, each decoded by itself; `None` where one fails.
pub open spec fn joined_text(chunks: Seq<Seq<u8>>, policy: StrErrors) -> Option<Seq<char>>
    decreases chunks.len(),
{
    if chunks.len() == 0 {
        Some(Seq::empty())
    } else {
        match (joined_text(chunks.drop_last(), policy), text_of(chunks.last(), policy)) {
            (Some(front), Some(last)) => Some(front + last),
            _ => None,
        }
    }
}

/// Major type 2.
pub open spec fn parse_byte_string(input: Seq<u8>, subtype: u8, st: DecodeState) -> Parsed<Item> {
    match take_length(input, subtype) {
        Taken::Missed(e) => Parsed::Failed(e),
        Taken::Got { value: None, rest } => match take_chunks(rest, 2, Seq::empty()) {
            Taken::Missed(e) => Parsed::Failed(e),
            Taken::Got { value: chunks, rest: after } => {
                let item = Item::Bytes(joined(chunks));
                Parsed::Done {
                    value: item,
                    rest: after,
                    state: DecodeState {
                        namespace: offer(st.namespace, item, joined(chunks).len()),
                        ..st
                    },
                }
            },
        },
        Taken::Got { value: Some(length), rest } => match take_payload(rest, length) {
            Taken::Missed(e) => Parsed::Failed(e),
            Taken::Got { value: bytes, rest: after } => {
                let item = Item::Bytes(bytes);
                Parsed::Done {
                    value: item,
                    rest: after,
                    state: DecodeState {
                        namespace: offer(st.namespace, item, bytes.len()),
                        ..st
                    },
                }
            },
        },
    }
}

/// Major type 3.
pub open spec fn parse_text_string(input: Seq<u8>, subtype: u8, st: DecodeState) -> Parsed<Item> {
    match take_length(input, subtype) {
        Taken::Missed(e) => Parsed::Failed(e),
        Taken::Got { value: None, rest } => match take_chunks(rest, 3, Seq::empty()) {
            Taken::Missed(e) => Parsed::Failed(e),
            Taken::Got { value: chunks, rest: after } => match joined_text(chunks, st.str_errors) {
                None => Parsed::Failed(DecodeError::InvalidUtf8),
                Some(text) => {
                    let item = Item::Text(text);
                    Parsed::Done {
                        value: item,
                        rest: after,
                        state: DecodeState {
                            namespace: offer(st.namespace, item, joined(chunks).len()),
                            ..st
                        },
                    }
                },
            },
        },
        Taken::Got { value: Some(length), rest } => match take_payload(rest, length) {
            Taken::Missed(e) => Parsed::Failed(e),
            Taken::Got { value: bytes, rest: after } => match text_of(bytes, st.str_errors) {
                None => Parsed::Failed(DecodeError::InvalidUtf8),
                Some(text) => {
                    let item = Item::Text(text);
                    Parsed::Done {
                        value: item,
                        rest: after,
                        state: DecodeState {
                            namespace: offer(st.namespace, item, bytes.len()),
                            ..st
                        },
                    }
                },
            },
        },
    }
}

/// Reads `count` items.
#[verifier::opaque]
pub open spec fn parse_items(input: Seq<u8>, count: nat, st: DecodeState, acc: Seq<Item>)
    -> Parsed<Seq<Item>>
    decreases input.len(), 1nat, count,
{
    if count == 0 {
        Parsed::Done { value: acc, rest: input, state: st }
    } else {
        match parse_item(input, st) {
            Parsed::Failed(e) => Parsed::Failed(e),
            Parsed::Done { value, rest, state } => if rest.len() < input.len() {
                parse_items(rest, (count - 1) as nat, state, acc.push(value))
            } else {
                Parsed::Failed(end_of_stream())
            },
        }
    }
}

/// Reads items up to the break.
#[verifier::opaque]
pub open spec fn parse_items_to_break(input: Seq<u8>, st: DecodeState, acc: Seq<Item>) -> Parsed<
    Seq<Item>,
>
    decreases input.len(), 1nat, 0nat,
{
    match parse_item(input, st) {
        Parsed::Failed(e) => Parsed::Failed(e),
        Parsed::Done { value, rest, state } => if value is Break {
            Parsed::Done { value: acc, rest, state }
        } else if rest.len() < input.len() {
            parse_items_to_break(rest, state, acc.push(value))
        } else {
            Parsed::Failed(end_of_stream())
        },
    }
}

/// Major type 4. In the immutable context the items make a tuple;
/// otherwise a list, which claims the waiting slot before its items are
/// read.
#[verifier::opaque]
pub open spec fn parse_array(input: Seq<u8>, subtype: u8, st: DecodeState) -> Parsed<Item>
    decreases input.len(), 2nat, 0nat,
{
    match take_length(input, subtype) {
        Taken::Missed(e) => Parsed::Failed(e),
        Taken::Got { value: length, rest } => {
            let begun = if st.immutable {
                st
            } else {
                claim(st)
            };
            let items = if rest.len() > input.len() {
                Parsed::Failed(end_of_stream())
            } else {
                match length {
                    Some(n) => parse_items(rest, n as nat, begun, Seq::empty()),
                    None => parse_items_to_break(rest, begun, Seq::empty()),
                }
            };
            match items {
                Parsed::Failed(e) => Parsed::Failed(e),
                Parsed::Done { value, rest, state } => Parsed::Done {
                    value: if st.immutable {
                        Item::Tuple(value)
                    } else {
                        Item::Array(value)
                    },
                    rest,
                    state,
                },
            }
        },
    }
}

/// Reads one key in the immutable context and its value in the context
/// around, and sets the key to the value. `to_break` says whether a break
/// in place of the key ends the map; the result then carries `true`.
#[verifier::opaque]
pub open spec fn parse_entry(
    input: Seq<u8>,
    st: DecodeState,
    acc: Seq<(Item, Item)>,
    to_break: bool,
) -> Parsed<(Seq<(Item, Item)>, bool)>
    decreases input.len(), 1nat, 0nat,
{
    match parse_item(input, DecodeState { immutable: true, ..st }) {
        Parsed::Failed(e) => Parsed::Failed(e),
        Parsed::Done { value: key, rest, state } => {
            let restored = DecodeState { immutable: st.immutable, ..state };
            if to_break && key is Break {
                Parsed::Done { value: (acc, true), rest, state: restored }
            } else if rest.len() >= input.len() {
                Parsed::Failed(end_of_stream())
            } else {
                match parse_item(rest, restored) {
                    Parsed::Failed(e) => Parsed::Failed(e),
                    Parsed::Done { value, rest: after, state: last } => if !hashable(key) {
                        Parsed::Failed(DecodeError::UnhashableKey)
                    } else {
                        Parsed::Done {
                            value: (dict_insert(acc, key, value), false),
                            rest: after,
                            state: last,
                        }
                    },
                }
            }
        },
    }
}

/// Reads `count` entries of a map.
#[verifier::opaque]
pub open spec fn parse_entries(
    input: Seq<u8>,
    count: nat,
    st: DecodeState,
    acc: Seq<(Item, Item)>,
) -> Parsed<Seq<(Item, Item)>>
    decreases input.len(), 2nat, count,
{
    if count == 0 {
        Parsed::Done { value: acc, rest: input, state: st }
    } else {
        match parse_entry(input, st, acc, false) {
            Parsed::Failed(e) => Parsed::Failed(e),
            Parsed::Done { value, rest, state } => if rest.len() < input.len() {
                parse_entries(rest, (count - 1) as nat, state, value.0)
            } else {
                Parsed::Failed(end_of_stream())
            },
        }
    }
}

/// Reads entries of a map up to the break.
#[verifier::opaque]
pub open spec fn parse_entries_to_break(input: Seq<u8>, st: DecodeState, acc: Seq<(Item, Item)>)
    -> Parsed<Seq<(Item, Item)>>
    decreases input.len(), 2nat, 0nat,
{
    match parse_entry(input, st, acc, true) {
        Parsed::Failed(e) => Parsed::Failed(e),
        Parsed::Done { value, rest, state } => if value.1 {
            Parsed::Done { value: value.0, rest, state }
        } else if rest.len() < input.len() {
            parse_entries_to_break(rest, state, value.0)
        } else {
            Parsed::Failed(end_of_stream())
        },
    }
}

/// Major type 5. Outside the immutable context the map claims the waiting
/// slot before its entries are read; inside it the entries make a frozen
/// map. Where an object hook waits, the model stops behind the entries.
#[verifier::opaque]
pub open spec fn parse_map(input: Seq<u8>, subtype: u8, st: DecodeState) -> Parsed<Item>
    decreases input.len(), 3nat, 0nat,
{
    match take_length(input, subtype) {
        Taken::Missed(e) => Parsed::Failed(e),
        Taken::Got { value: length, rest } => {
            let begun = if st.immutable {
                st
            } else {
                claim(st)
            };
            let entries = if rest.len() > input.len() {
                Parsed::Failed(end_of_stream())
            } else {
                match length {
                    Some(n) => parse_entries(rest, n as nat, begun, Seq::empty()),
                    None => parse_entries_to_break(rest, begun, Seq::empty()),
                }
            };
            match entries {
                Parsed::Failed(e) => Parsed::Failed(e),
                Parsed::Done { value, rest, state } => if st.object_hook {
                    Parsed::Failed(DecodeError::ObjectHookFailed)
                } else {
                    Parsed::Done {
                        value: if st.immutable {
                            Item::FrozenDict(value)
                        } else {
                            Item::Dict(value)
                        },
                        rest,
                        state,
                    }
                },
            }
        },
    }
}

/// The index that a reference carries, where it is one that the table can
/// be asked for.
pub open spec fn reference_index(item: Item) -> Option<u64> {
    match item {
        Item::Unsigned(n) => if n <= u64::MAX {
            Some(n as u64)
        } else {
            None
        },
        _ => None,
    }
}

/// What a reference to slot `index` of the table gives.
pub open spec fn shared_value(shareables: Seq<Slot>, index: u64) -> Result<Item, DecodeError> {
    if index >= shareables.len() {
        Err(DecodeError::SharedReferenceNotFound { index })
    } else {
        match shareables[index as int] {
            Slot::Pending => Err(DecodeError::SharedValueNotInitialized { index }),
            Slot::Building => Ok(Item::Shared(index as nat)),
            Slot::Filled(item) => if is_mutable(item) {
                Ok(Item::Shared(index as nat))
            } else {
                Ok(item)
            },
        }
    }
}

/// What a reference to string `index` of the namespace gives.
pub open spec fn string_reference(namespace: Option<Seq<Item>>, index: u64) -> Result<
    Item,
    DecodeError,
> {
    match namespace {
        None => Err(DecodeError::StringReferenceOutsideNamespace),
        Some(entries) => if index >= entries.len() {
            Err(DecodeError::StringReferenceNotFound { index })
        } else {
            Ok(entries[index as int])
        },
    }
}

/// Major type 6: the tag number, then the content as the tag asks for it.
/// A tag that the decoder does not interpret claims the waiting slot and
/// keeps its content; where a tag hook waits, it claims nothing and the
/// model stops behind the content.
#[verifier::opaque]
pub open spec fn parse_tagged(input: Seq<u8>, subtype: u8, st: DecodeState) -> Parsed<Item>
    decreases input.len(), 3nat, 0nat,
{
    match take_finite_length(input, subtype) {
        Taken::Missed(e) => Parsed::Failed(e),
        Taken::Got { value: tag, rest } => if rest.len() > input.len() {
            Parsed::Failed(end_of_stream())
        } else if tag == 25 {
            match parse_item(rest, st) {
                Parsed::Failed(e) => Parsed::Failed(e),
                Parsed::Done { value, rest: after, state } => match reference_index(value) {
                    None => Parsed::Failed(DecodeError::InvalidReferenceIndex),
                    Some(index) => match string_reference(state.namespace, index) {
                        Err(e) => Parsed::Failed(e),
                        Ok(item) => Parsed::Done { value: item, rest: after, state },
                    },
                },
            }
        } else if tag == 28 {
            let index = st.shareables.len();
            let marked = DecodeState {
                share_index: Some(index),
                shareables: st.shareables.push(Slot::Pending),
                ..st
            };
            match parse_item(rest, marked) {
                Parsed::Failed(e) => Parsed::Failed(e),
                Parsed::Done { value, rest: after, state } => Parsed::Done {
                    value: if is_mutable(value) {
                        Item::Shared(index)
                    } else {
                        value
                    },
                    rest: after,
                    state: DecodeState {
                        share_index: st.share_index,
                        shareables: if index < state.shareables.len() {
                            state.shareables.update(index as int, Slot::Filled(value))
                        } else {
                            state.shareables
                        },
                        ..state
                    },
                },
            }
        } else if tag == 29 {
            match parse_item(rest, st) {
                Parsed::Failed(e) => Parsed::Failed(e),
                Parsed::Done { value, rest: after, state } => match reference_index(value) {
                    None => Parsed::Failed(DecodeError::InvalidReferenceIndex),
                    Some(index) => match shared_value(state.shareables, index) {
                        Err(e) => Parsed::Failed(e),
                        Ok(item) => Parsed::Done { value: item, rest: after, state },
                    },
                },
            }
        } else if tag == 256 {
            match parse_item(rest, DecodeState { namespace: Some(Seq::empty()), ..st }) {
                Parsed::Failed(e) => Parsed::Failed(e),
                Parsed::Done { value, rest: after, state } => Parsed::Done {
                    value,
                    rest: after,
                    state: DecodeState { namespace: st.namespace, ..state },
                },
            }
        } else if tag == 55799 {
            parse_item(rest, st)
        } else if is_interpreted_tag(tag) {
            let context = DecodeState {
                immutable: st.immutable || !accepts_any_context(tag),
                ..st
            };
            match parse_item(rest, context) {
                Parsed::Failed(e) => Parsed::Failed(e),
                Parsed::Done { value, rest: after, state } => match interpreted(
                    tag,
                    value,
                    st.immutable,
                ) {
                    Err(e) => Parsed::Failed(e),
                    Ok(item) => Parsed::Done {
                        value: item,
                        rest: after,
                        state: DecodeState { immutable: st.immutable, ..state },
                    },
                },
            }
        } else if st.tag_hook {
            match parse_item(rest, DecodeState { immutable: true, ..st }) {
                Parsed::Failed(e) => Parsed::Failed(e),
                Parsed::Done { .. } => Parsed::Failed(DecodeError::TagHookFailed),
            }
        } else {
            match parse_item(rest, DecodeState { immutable: true, ..claim(st) }) {
                Parsed::Failed(e) => Parsed::Failed(e),
                Parsed::Done { value, rest: after, state } => Parsed::Done {
                    value: Item::Tag(tag, Box::new(value)),
                    rest: after,
                    state: DecodeState { immutable: st.immutable, ..state },
                },
            }
        },
    }
}

/// Major type 7.
pub open spec fn parse_special(input: Seq<u8>, subtype: u8, st: DecodeState) -> Parsed<Item> {
    if subtype < 20 {
        Parsed::Done { value: Item::Simple(subtype), rest: input, state: st }
    } else if subtype == 20 {
        Parsed::Done { value: Item::Bool(false), rest: input, state: st }
    } else if subtype == 21 {
        Parsed::Done { value: Item::Bool(true), rest: input, state: st }
    } else if subtype == 22 {
        Parsed::Done { value: Item::Null, rest: input, state: st }
    } else if subtype == 23 {
        Parsed::Done { value: Item::Undefined, rest: input, state: st }
    } else if subtype == 24 {
        match take_number(input, 1) {
            Taken::Missed(e) => Parsed::Failed(e),
            Taken::Got { value, rest } => if 24 <= value < 32 {
                Parsed::Failed(DecodeError::ReservedSimpleValue { value: value as u8 })
            } else {
                Parsed::Done { value: Item::Simple(value as u8), rest, state: st }
            },
        }
    } else if subtype == 25 {
        match take_number(input, 2) {
            Taken::Missed(e) => Parsed::Failed(e),
            Taken::Got { value, rest } => Parsed::Done {
                value: Item::Float(half_to_double(value as u16)),
                rest,
                state: st,
            },
        }
    } else if subtype == 26 {
        match take_number(input, 4) {
            Taken::Missed(e) => Parsed::Failed(e),
            Taken::Got { value, rest } => Parsed::Done {
                value: Item::Float(single_to_double(value as u32)),
                rest,
                state: st,
            },
        }
    } else if subtype == 27 {
        match take_number(input, 8) {
            Taken::Missed(e) => Parsed::Failed(e),
            Taken::Got { value, rest } => Parsed::Done {
                value: Item::Float(value as u64),
                rest,
                state: st,
            },
        }
    } else if subtype == 31 {
        Parsed::Done { value: Item::Break, rest: input, state: st }
    } else {
        Parsed::Failed(DecodeError::ReservedSpecial { subtype })
    }
}

} // verus!
