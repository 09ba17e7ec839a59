//! What holds of the wire format at its boundaries, of chunked strings, of
//! the depth limit and of cycles.

use crate::emit::encode_item;
use crate::emit::integer_bytes;
use crate::emit::shared_bytes;
use crate::emit::string_bytes;
use crate::emit::EncodeState;
use crate::emit::Encoded;
use crate::emit::Mark;
use crate::emit_lemmas::lemma_array_body;
use crate::emit_lemmas::lemma_encode_item;
use crate::emit_lemmas::lemma_encode_items;
use crate::emit_lemmas::lemma_shared_bytes;
use crate::emit_lemmas::lemma_shared_content;
use crate::emit_lemmas::lemma_shared_first;
use crate::encoder::lemma_unseen_update;
use crate::errors::DecodeError;
use crate::errors::EncodeFault;
use crate::parse::parse_byte_string;
use crate::parse::parse_item;
use crate::parse::parse_text_string;
use crate::parse::take_chunks;
use crate::parse::DecodeState;
use crate::parse::Parsed;
use crate::parse::Slot;
use crate::parse::Taken;
use crate::value::Item;
use crate::wire::be_minimal;
use crate::wire::be_width;
use crate::wire::head;
use crate::wire::head_len;
use crate::wire::initial_byte;
use crate::wire::lemma_head_shape;
use crate::wire::lemma_radix_values;
use crate::wire::radix;
use vstd::prelude::*;

verus! {

/// An integer `n` is written in the length field of major type 0 as long as
/// it is below 2^64; from 2^64 on it is written as tag 2 (initial byte
/// `0xc2`) around a byte string of its shortest big-endian bytes, which are
/// nine or more.
pub proof fn law_unsigned_boundary(n: nat, st: EncodeState)
    ensures
        n < radix(8) ==> integer_bytes(n, false, st) == (Encoded::Done {
            bytes: head(0, n),
            state: st,
        }),
        n >= radix(8) ==> integer_bytes(n, false, st) is Done && integer_bytes(
            n,
            false,
            st,
        )->bytes[0] == 0xc2 && be_width(n) >= 9,
        n >= radix(8) && !st.string_referencing ==> integer_bytes(n, false, st)->bytes == head(6, 2)
            + (head(2, be_width(n)) + be_minimal(n)),
{
    lemma_radix_values();
    lemma_head_shape(6, 2);
    if n >= radix(8) {
        crate::wire::lemma_be_width_bound(n);
        if be_width(n) < 9 {
            crate::wire::lemma_radix_monotone(be_width(n), 8);
        }
        crate::wire::lemma_be_bytes_len(n, be_width(n));
        let inner = string_bytes(Item::Bytes(be_minimal(n)), 2, be_minimal(n), st);
        assert(inner is Done);
        assert((head(6, 2) + inner->bytes)[0] == head(6, 2)[0]);
    }
}

/// The negative integer `-1 - n` is written in the length field of major
/// type 1 as long as `n` is below 2^64, that is down to -2^64; from
/// -2^64 - 1 on it is written as tag 3 (initial byte `0xc3`) around a byte
/// string of the shortest big-endian bytes of `n`.
pub proof fn law_negative_boundary(n: nat, st: EncodeState)
    ensures
        n < radix(8) ==> integer_bytes(n, true, st) == (Encoded::Done {
            bytes: head(1, n),
            state: st,
        }),
        n >= radix(8) ==> integer_bytes(n, true, st) is Done && integer_bytes(
            n,
            true,
            st,
        )->bytes[0] == 0xc3 && be_width(n) >= 9,
        n >= radix(8) && !st.string_referencing ==> integer_bytes(n, true, st)->bytes == head(6, 3)
            + (head(2, be_width(n)) + be_minimal(n)),
{
    lemma_radix_values();
    lemma_head_shape(6, 3);
    if n >= radix(8) {
        crate::wire::lemma_be_width_bound(n);
        if be_width(n) < 9 {
            crate::wire::lemma_radix_monotone(be_width(n), 8);
        }
        crate::wire::lemma_be_bytes_len(n, be_width(n));
        let inner = string_bytes(Item::Bytes(be_minimal(n)), 2, be_minimal(n), st);
        assert(inner is Done);
        assert((head(6, 3) + inner->bytes)[0] == head(6, 3)[0]);
    }
}

/// The header of a length grows to the next wider form exactly at 24, 256,
/// 65536 and 2^32: of two lengths the larger never has the shorter header,
/// and the header has 1, 2, 3, 5 or 9 bytes as the length is below the
/// first, second, third or fourth of these bounds or not.
pub proof fn law_header_width(major: u8, a: nat, b: nat)
    requires
        major < 8,
        a <= b < radix(8),
    ensures
        head(major, a).len() <= head(major, b).len(),
        head(major, a).len() == head_len(a),
        head_len(a) == if a < 24 {
            1nat
        } else if a < 256 {
            2nat
        } else if a < 65536 {
            3nat
        } else if a < 0x1_0000_0000 {
            5nat
        } else {
            9nat
        },
{
    lemma_head_shape(major, a);
    lemma_head_shape(major, b);
}

/// Inside a string of indefinite length, an item of another major type
/// than the string's is rejected wherever it stands.
pub proof fn law_chunk_of_other_type(input: Seq<u8>, major: u8, acc: Seq<Seq<u8>>)
    requires
        input.len() > 0,
        input[0] != 0xff,
        input[0] / 32 != major,
    ensures
        take_chunks(input, major, acc) == Taken::<Seq<Seq<u8>>>::Missed(
            DecodeError::WrongChunkType { wanted: major, found: input[0] / 32 },
        ),
{
}

/// Inside a string of indefinite length, a chunk that is itself of
/// indefinite length is rejected wherever it stands.
pub proof fn law_chunk_of_indefinite_length(input: Seq<u8>, major: u8, acc: Seq<Seq<u8>>)
    requires
        input.len() > 0,
        major < 7,
        input[0] == initial_byte(major, 31),
    ensures
        take_chunks(input, major, acc) == Taken::<Seq<Seq<u8>>>::Missed(
            DecodeError::IndefiniteLengthNotAllowed,
        ),
{
}

/// A byte or text string of indefinite length fails where its chunks do,
/// and with the failure of the chunks.
pub proof fn law_chunk_failure_fails_the_string(input: Seq<u8>, st: DecodeState, e: DecodeError)
    ensures
        take_chunks(input, 2, Seq::empty()) == Taken::<Seq<Seq<u8>>>::Missed(e)
            ==> parse_byte_string(input, 31, st) == Parsed::<Item>::Failed(e),
        take_chunks(input, 3, Seq::empty()) == Taken::<Seq<Seq<u8>>>::Missed(e)
            ==> parse_text_string(input, 31, st) == Parsed::<Item>::Failed(e),
{
}

/// At the depth limit nothing is read and no value comes out: decoding
/// fails with the failure of the limit, whatever the bytes.
pub proof fn law_depth_limit(input: Seq<u8>, st: DecodeState)
    requires
        st.depth >= st.max_depth,
    ensures
        parse_item(input, st) == Parsed::<Item>::Failed(
            DecodeError::RecursionLimit { max_depth: st.max_depth },
        ),
{
    crate::parse_lemmas::lemma_parse_item(input, st);
    crate::parse_lemmas::lemma_parse_body(input, st);
}

/// A reference to a shared value that is being encoded is a cycle: it
/// fails, and nothing is written for it.
pub proof fn law_cycle_detected(heap: Seq<Slot>, i: nat, st: EncodeState)
    requires
        i < heap.len(),
        i < st.marks.len(),
        heap[i as int] is Filled,
        st.marks[i as int] is Active,
    ensures
        shared_bytes(heap, i, st) == Encoded::Failed(EncodeFault::CyclicStructure),
        encode_item(heap, Item::Shared(i), st) == Encoded::Failed(EncodeFault::CyclicStructure),
{
    lemma_shared_bytes(heap, i, st);
    lemma_encode_item(heap, Item::Shared(i), st);
}

/// With value sharing off, a list whose first member is the list itself
/// cannot be encoded: the cycle is found.
pub proof fn law_self_reference_fails(heap: Seq<Slot>, i: nat, st: EncodeState)
    requires
        !st.value_sharing,
        i < heap.len(),
        i < st.marks.len(),
        st.marks[i as int] is Unseen,
        heap[i as int] matches Slot::Filled(Item::Array(items)) && items.len() > 0 && items[0]
            == Item::Shared(i),
    ensures
        encode_item(heap, Item::Shared(i), st) == Encoded::Failed(EncodeFault::CyclicStructure),
{
    let content = heap[i as int]->Filled_0;
    let items = content->Array_0;
    let inner = EncodeState {
        string_namespacing: false,
        marks: st.marks.update(i as int, Mark::Active),
        ..st
    };
    lemma_encode_item(heap, Item::Shared(i), st);
    lemma_shared_bytes(heap, i, st);
    lemma_shared_first(heap, i, content, st);
    lemma_unseen_update(st.marks, i as int, Mark::Active);
    lemma_shared_content(heap, content, inner);
    lemma_array_body(heap, items, inner);
    lemma_encode_items(heap, items, inner);
    law_cycle_detected(heap, i, inner);
}

} // verus!
