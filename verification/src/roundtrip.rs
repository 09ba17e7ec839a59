//! Decoding what was encoded gives the value back.

use crate::collections::dict_insert;
use crate::collections::distinct;
use crate::collections::every_hashable;
use crate::collections::hashable;
use crate::emit::encode_entries;
use crate::emit::encode_item;
use crate::emit::encode_items;
use crate::emit::fresh_dict;
use crate::emit::fresh_list;
use crate::emit::set_bytes;
use crate::emit::tagged_bytes;
use crate::emit_lemmas::lemma_array_body;
use crate::emit_lemmas::lemma_encode_entries;
use crate::emit_lemmas::lemma_encode_entry;
use crate::emit_lemmas::lemma_encode_items;
use crate::emit_lemmas::lemma_fresh_dict;
use crate::emit_lemmas::lemma_fresh_list;
use crate::emit_lemmas::lemma_map_body;
use crate::emit_lemmas::lemma_map_entries;
use crate::emit_lemmas::lemma_set_bytes;
use crate::emit_lemmas::lemma_tagged_bytes;
use crate::collections::lemma_key_index;
use crate::parse::claim;
use crate::parse::parse_entries;
use crate::parse::parse_entry;
use crate::parse::parse_items;
use crate::emit::float_bytes;
use crate::emit::integer_bytes;
use crate::emit::simple_bytes;
use crate::emit_lemmas::lemma_encode_item;
use crate::floats::half_to_double;
use crate::floats::is_infinite;
use crate::floats::is_negative;
use crate::floats::widen;
use crate::parse::parse_major;
use crate::parse::Slot;
use crate::tags::interpreted;
use crate::text::lemma_valid_up_to_unique;
use crate::text::text_of;
use crate::text::StrErrors;
use crate::wire::be_minimal;
use crate::wire::be_width;
use crate::emit::EncodeState;
use crate::emit::Encoded;
use crate::floats::is_nan;
use crate::floats::NAN_BITS;
use crate::parse::parse_item;
use crate::parse::take_bytes;
use crate::parse::take_finite_length;
use crate::parse::take_length;
use crate::parse::take_number;
use crate::parse::DecodeState;
use crate::parse::Parsed;
use crate::parse::Taken;
use crate::tags::is_interpreted_tag;
use crate::value::Item;
use crate::wire::be_bytes;
use crate::wire::head;
use crate::wire::head_subtype;
use crate::wire::lemma_be_bytes_len;
use crate::wire::lemma_be_value_of_bytes;
use crate::wire::lemma_head_shape;
use crate::wire::lemma_radix_values;
use crate::wire::radix;
use vstd::prelude::*;
use vstd::utf8::encode_utf8;

verus! {

/// Reading the next `n` bytes of `payload + rest`, where `payload` has `n`
/// bytes, gives `payload` and leaves `rest`.
pub proof fn lemma_take_bytes(payload: Seq<u8>, rest: Seq<u8>)
    ensures
        take_bytes(payload + rest, payload.len()) == (Taken::Got { value: payload, rest }),
{
    assert((payload + rest).take(payload.len() as int) =~= payload);
    assert((payload + rest).skip(payload.len() as int) =~= rest);
}

/// Reading a number that was written in `width` bytes gives the number.
pub proof fn lemma_take_number(n: nat, width: nat, rest: Seq<u8>)
    requires
        n < radix(width),
    ensures
        take_number(be_bytes(n, width) + rest, width) == (Taken::Got { value: n, rest }),
{
    lemma_be_bytes_len(n, width);
    lemma_take_bytes(be_bytes(n, width), rest);
    lemma_be_value_of_bytes(n, width);
}

/// Reading a header that was written gives major type and length back: the
/// first byte names the major type, and the length field that follows it
/// is the length.
pub proof fn lemma_take_head(major: u8, n: nat, rest: Seq<u8>)
    requires
        major < 8,
        n < radix(8),
    ensures
        ({
            let input = head(major, n) + rest;
            &&& input.len() > 0
            &&& input[0] / 32 == major
            &&& input[0] % 32 == head_subtype(n)
            &&& head_subtype(n) < 28
            &&& take_length(input.skip(1), input[0] % 32) == (Taken::Got {
                value: Some(n as u64),
                rest,
            })
            &&& take_finite_length(input.skip(1), input[0] % 32) == (Taken::Got {
                value: n as u64,
                rest,
            })
        }),
{
    lemma_radix_values();
    lemma_head_shape(major, n);
    let input = head(major, n) + rest;
    assert(input[0] == head(major, n)[0]);
    if n < 24 {
        assert(input.skip(1) =~= rest);
    } else {
        let width: nat = if n < 0x100 {
            1
        } else if n < 0x1_0000 {
            2
        } else if n < 0x1_0000_0000 {
            4
        } else {
            8
        };
        lemma_be_bytes_len(n, width);
        assert(input.skip(1) =~= be_bytes(n, width) + rest);
        lemma_take_number(n, width, rest);
    }
}

/// The options under which every plain value comes back as it is: no
/// value sharing, no string references, containers of definite length, and
/// the entries of maps in their own order.
pub open spec fn plain_options(st: EncodeState) -> bool {
    &&& !st.value_sharing
    &&& !st.canonical
    &&& !st.string_referencing
    &&& !st.string_namespacing
    &&& !st.indefinite_containers
}

/// The options under which every value that holds no map and no set comes
/// back as it is: no value sharing, no string references, and containers
/// of definite length.
pub open spec fn steady_options(st: EncodeState) -> bool {
    &&& !st.value_sharing
    &&& !st.string_referencing
    &&& !st.string_namespacing
    &&& !st.indefinite_containers
}

/// Whether a value is and holds neither map nor set. Maps and sets are
/// written in the order of their sort keys in canonical mode, and so come
/// back in that order.
#[verifier::opaque]
pub open spec fn holds_no_map(item: Item) -> bool
    decreases item, 1nat,
{
    match item {
        Item::Array(items) => none_holds_map(items),
        Item::Tuple(items) => none_holds_map(items),
        Item::Tag(_, content) => holds_no_map(*content),
        Item::Dict(_) => false,
        Item::FrozenDict(_) => false,
        Item::MutableSet(_) => false,
        Item::FrozenSet(_) => false,
        _ => true,
    }
}

/// Whether none of the values is or holds a map or a set.
#[verifier::opaque]
pub open spec fn none_holds_map(items: Seq<Item>) -> bool
    decreases items, 0nat,
{
    if items.len() == 0 {
        true
    } else {
        holds_no_map(items[0]) && none_holds_map(items.drop_first())
    }
}

/// The defining equation of [`holds_no_map`].
pub proof fn lemma_holds_no_map(item: Item)
    ensures
        holds_no_map(item) == ({
            match item {
                Item::Array(items) => none_holds_map(items),
                Item::Tuple(items) => none_holds_map(items),
                Item::Tag(_, content) => holds_no_map(*content),
                Item::Dict(_) => false,
                Item::FrozenDict(_) => false,
                Item::MutableSet(_) => false,
                Item::FrozenSet(_) => false,
                _ => true,
            }
        }),
{
    reveal(holds_no_map);
    reveal(none_holds_map);
}

/// The defining equation of [`none_holds_map`].
pub proof fn lemma_none_holds_map(items: Seq<Item>)
    ensures
        none_holds_map(items) == ({
            if items.len() == 0 {
                true
            } else {
                holds_no_map(items[0]) && none_holds_map(items.drop_first())
            }
        }),
{
    reveal(holds_no_map);
    reveal(none_holds_map);
}

/// Whether a tag is neither interpreted by the decoder nor one of those
/// that steer it.
pub open spec fn plain_tag(tag: u64) -> bool {
    tag != 25 && tag != 28 && tag != 29 && tag != 256 && tag != 55799 && !is_interpreted_tag(tag)
}

/// Whether no two entries have the same key.
pub open spec fn keys_differ(entries: Seq<(Item, Item)>) -> bool {
    forall|i: int, j: int|
        0 <= i < j < entries.len() ==> (#[trigger] entries[i]).0 != (#[trigger] entries[j]).0
}

/// Whether a value is one that the decoder yields in the given context
/// for the bytes that the encoder writes for it: the supported values.
///
/// Lists stand outside the immutable context and tuples inside it, and so
/// for maps and sets; keys, members of sets and content of tags are read
/// in the immutable context. Simple values 20 to 23 are the booleans, null
/// and undefined; a NaN is the one quiet NaN. Strings fit this machine.
#[verifier::opaque]
pub open spec fn plain(item: Item, immutable: bool) -> bool
    decreases item, 1nat,
{
    match item {
        Item::Unsigned(n) => n >= radix(8) ==> be_width(n) <= usize::MAX,
        Item::Negative(n) => n >= radix(8) ==> be_width(n) <= usize::MAX,
        Item::Bytes(b) => b.len() <= usize::MAX,
        Item::Text(s) => encode_utf8(s).len() <= usize::MAX,
        Item::Array(items) => !immutable && items.len() < radix(8) && all_plain(items, false),
        Item::Tuple(items) => immutable && items.len() < radix(8) && all_plain(items, true),
        Item::Dict(entries) => !immutable && entries.len() < radix(8) && entries_plain(
            entries,
            false,
        ) && keys_differ(entries),
        Item::FrozenDict(entries) => immutable && entries.len() < radix(8) && entries_plain(
            entries,
            true,
        ) && keys_differ(entries),
        Item::MutableSet(items) => !immutable && items.len() < radix(8) && all_plain(items, true)
            && every_hashable(items) && items.no_duplicates(),
        Item::FrozenSet(items) => immutable && items.len() < radix(8) && all_plain(items, true)
            && every_hashable(items) && items.no_duplicates(),
        Item::Tag(tag, content) => plain_tag(tag) && plain(*content, true),
        Item::Simple(value) => value < 20 || value >= 32,
        Item::Bool(_) => true,
        Item::Null => true,
        Item::Undefined => true,
        Item::Float(d) => is_nan(d) ==> d == NAN_BITS,
        _ => false,
    }
}

/// Whether all the values are supported in the context.
#[verifier::opaque]
pub open spec fn all_plain(items: Seq<Item>, immutable: bool) -> bool
    decreases items, 0nat,
{
    if items.len() == 0 {
        true
    } else {
        plain(items[0], immutable) && all_plain(items.drop_first(), immutable)
    }
}

/// Whether all the keys are supported as keys and all the values are
/// supported in the context.
#[verifier::opaque]
pub open spec fn entries_plain(entries: Seq<(Item, Item)>, immutable: bool) -> bool
    decreases entries, 0nat,
{
    if entries.len() == 0 {
        true
    } else {
        plain(entries[0].0, true) && hashable(entries[0].0) && plain(entries[0].1, immutable)
            && entries_plain(entries.drop_first(), immutable)
    }
}

/// How deep a value nests, counted in items of the wire format.
#[verifier::opaque]
pub open spec fn depth(item: Item) -> nat
    decreases item, 1nat,
{
    match item {
        Item::Unsigned(n) => if n < radix(8) {
            1
        } else {
            2
        },
        Item::Negative(n) => if n < radix(8) {
            1
        } else {
            2
        },
        Item::Array(items) => 1 + deepest(items),
        Item::Tuple(items) => 1 + deepest(items),
        Item::Dict(entries) => 1 + deepest_entry(entries),
        Item::FrozenDict(entries) => 1 + deepest_entry(entries),
        Item::MutableSet(items) => 2 + deepest(items),
        Item::FrozenSet(items) => 2 + deepest(items),
        Item::Tag(_, content) => 1 + depth(*content),
        _ => 1,
    }
}

/// The depth of the deepest of the values.
#[verifier::opaque]
pub open spec fn deepest(items: Seq<Item>) -> nat
    decreases items, 0nat,
{
    if items.len() == 0 {
        0
    } else {
        let first = depth(items[0]);
        let others = deepest(items.drop_first());
        if first >= others {
            first
        } else {
            others
        }
    }
}

/// The depth of the deepest of the keys and values.
#[verifier::opaque]
pub open spec fn deepest_entry(entries: Seq<(Item, Item)>) -> nat
    decreases entries, 0nat,
{
    if entries.len() == 0 {
        0
    } else {
        let key = depth(entries[0].0);
        let value = depth(entries[0].1);
        let others = deepest_entry(entries.drop_first());
        if key >= value && key >= others {
            key
        } else if value >= others {
            value
        } else {
            others
        }
    }
}

/// The defining equation of [`plain`].
pub proof fn lemma_plain(item: Item, immutable: bool)
    ensures
        plain(item, immutable) == ({
            match item {
                Item::Unsigned(n) => n >= radix(8) ==> be_width(n) <= usize::MAX,
                Item::Negative(n) => n >= radix(8) ==> be_width(n) <= usize::MAX,
                Item::Bytes(b) => b.len() <= usize::MAX,
                Item::Text(s) => encode_utf8(s).len() <= usize::MAX,
                Item::Array(items) => !immutable && items.len() < radix(8) && all_plain(items, false),
                Item::Tuple(items) => immutable && items.len() < radix(8) && all_plain(items, true),
                Item::Dict(entries) => !immutable && entries.len() < radix(8) && entries_plain(
                    entries,
                    false,
                ) && keys_differ(entries),
                Item::FrozenDict(entries) => immutable && entries.len() < radix(8) && entries_plain(
                    entries,
                    true,
                ) && keys_differ(entries),
                Item::MutableSet(items) => !immutable && items.len() < radix(8) && all_plain(items, true)
                    && every_hashable(items) && items.no_duplicates(),
                Item::FrozenSet(items) => immutable && items.len() < radix(8) && all_plain(items, true)
                    && every_hashable(items) && items.no_duplicates(),
                Item::Tag(tag, content) => plain_tag(tag) && plain(*content, true),
                Item::Simple(value) => value < 20 || value >= 32,
                Item::Bool(_) => true,
                Item::Null => true,
                Item::Undefined => true,
                Item::Float(d) => is_nan(d) ==> d == NAN_BITS,
                _ => false,
            }
        }),
{
    reveal(plain);
    reveal(all_plain);
    reveal(entries_plain);
}

/// The defining equation of [`all_plain`].
pub proof fn lemma_all_plain(items: Seq<Item>, immutable: bool)
    ensures
        all_plain(items, immutable) == ({
            if items.len() == 0 {
                true
            } else {
                plain(items[0], immutable) && all_plain(items.drop_first(), immutable)
            }
        }),
{
    reveal(plain);
    reveal(all_plain);
}

/// The defining equation of [`entries_plain`].
pub proof fn lemma_entries_plain(entries: Seq<(Item, Item)>, immutable: bool)
    ensures
        entries_plain(entries, immutable) == ({
            if entries.len() == 0 {
                true
            } else {
                plain(entries[0].0, true) && hashable(entries[0].0) && plain(entries[0].1, immutable)
                    && entries_plain(entries.drop_first(), immutable)
            }
        }),
{
    reveal(plain);
    reveal(entries_plain);
}

/// The defining equation of [`depth`].
pub proof fn lemma_depth(item: Item)
    ensures
        depth(item) == ({
            match item {
                Item::Unsigned(n) => if n < radix(8) {
                    1
                } else {
                    2
                },
                Item::Negative(n) => if n < radix(8) {
                    1
                } else {
                    2
                },
                Item::Array(items) => 1 + deepest(items),
                Item::Tuple(items) => 1 + deepest(items),
                Item::Dict(entries) => 1 + deepest_entry(entries),
                Item::FrozenDict(entries) => 1 + deepest_entry(entries),
                Item::MutableSet(items) => 2 + deepest(items),
                Item::FrozenSet(items) => 2 + deepest(items),
                Item::Tag(_, content) => 1 + depth(*content),
                _ => 1,
            }
        }),
{
    reveal(depth);
    reveal(deepest);
    reveal(deepest_entry);
}

/// The defining equation of [`deepest`].
pub proof fn lemma_deepest(items: Seq<Item>)
    ensures
        deepest(items) == ({
            if items.len() == 0 {
                0
            } else {
                let first = depth(items[0]);
                let others = deepest(items.drop_first());
                if first >= others {
                    first
                } else {
                    others
                }
            }
        }),
{
    reveal(depth);
    reveal(deepest);
}

/// The defining equation of [`deepest_entry`].
pub proof fn lemma_deepest_entry(entries: Seq<(Item, Item)>)
    ensures
        deepest_entry(entries) == ({
            if entries.len() == 0 {
                0
            } else {
                let key = depth(entries[0].0);
                let value = depth(entries[0].1);
                let others = deepest_entry(entries.drop_first());
                if key >= value && key >= others {
                    key
                } else if value >= others {
                    value
                } else {
                    others
                }
            }
        }),
{
    reveal(depth);
    reveal(deepest_entry);
}

/// Where the decoder stands when the law applies: no slot waits, no
/// namespace is open and no hook waits, and at the top level the table of
/// shared values is empty.
pub open spec fn quiet(st: DecodeState) -> bool {
    &&& st.share_index is None
    &&& st.namespace is None
    &&& !st.tag_hook
    &&& !st.object_hook
    &&& st.depth == 0 ==> st.shareables == Seq::<Slot>::empty()
}

/// What the round trip of one value says: the encoder writes bytes, at
/// least one, and leaves its state alone; the decoder reads the value from
/// these bytes, leaves what follows them, and leaves its state alone.
pub open spec fn comes_back(
    encoded: Encoded,
    item: Item,
    est: EncodeState,
    dst: DecodeState,
    rest: Seq<u8>,
) -> bool {
    encoded matches Encoded::Done { bytes, state } && state == est && bytes.len() > 0
        && parse_item(bytes + rest, dst) == (Parsed::Done { value: item, rest, state: dst })
}

/// The text of encoded text is the text, under every policy.
pub proof fn lemma_text_of_encoded(s: Seq<char>, policy: StrErrors)
    ensures
        text_of(encode_utf8(s), policy) == Some(s),
{
    let bytes = encode_utf8(s);
    vstd::utf8::encode_utf8_valid_utf8(s);
    vstd::utf8::encode_utf8_decode_utf8(s);
    assert(bytes.take(bytes.len() as int) =~= bytes);
    lemma_valid_up_to_unique(bytes, bytes.len());
}

/// The doubles of the three half-precision patterns that the encoder
/// writes for NaN and the infinities.
pub proof fn lemma_special_halves()
    ensures
        half_to_double(0x7e00) == NAN_BITS,
        half_to_double(0x7c00) == 0x7ff0_0000_0000_0000,
        half_to_double(0xfc00) == 0xfff0_0000_0000_0000,
{
    reveal(widen);
}

/// An item that is read at a depth below the limit is what its major type
/// makes of the bytes behind the initial byte.
pub proof fn lemma_parse_item_unfold(input: Seq<u8>, dst: DecodeState)
    requires
        quiet(dst),
        dst.depth < dst.max_depth,
        input.len() > 0,
    ensures
        parse_item(input, dst) == match parse_major(
            input.skip(1),
            input[0] / 32,
            input[0] % 32,
            DecodeState { depth: dst.depth + 1, ..dst },
        ) {
            Parsed::Done { value, rest, state } => Parsed::Done {
                value,
                rest,
                state: crate::parse::finished(dst.depth, state),
            },
            Parsed::Failed(e) => Parsed::Failed(e),
        },
        crate::parse::finished(dst.depth, DecodeState { depth: dst.depth + 1, ..dst }) == dst,
{
    crate::parse_lemmas::lemma_parse_item(input, dst);
    crate::parse_lemmas::lemma_parse_body(input, dst);
}

/// The round trip of a byte string.
pub proof fn lemma_bytes_round_trip(
    heap: Seq<Slot>,
    b: Seq<u8>,
    est: EncodeState,
    dst: DecodeState,
    rest: Seq<u8>,
)
    requires
        !est.string_referencing,
        b.len() <= usize::MAX,
        quiet(dst),
        dst.depth < dst.max_depth,
    ensures
        comes_back(encode_item(heap, Item::Bytes(b), est), Item::Bytes(b), est, dst, rest),
        encode_item(heap, Item::Bytes(b), est)->bytes == head(2, b.len()) + b,
{
    lemma_encode_item(heap, Item::Bytes(b), est);
    lemma_radix_values();
    let bytes = head(2, b.len()) + b;
    let input = bytes + rest;
    assert(input =~= head(2, b.len()) + (b + rest));
    lemma_take_head(2, b.len(), b + rest);
    lemma_parse_item_unfold(input, dst);
    lemma_take_bytes(b, rest);
    let inner = DecodeState { depth: dst.depth + 1, ..dst };
    crate::parse_lemmas::lemma_parse_major(input.skip(1), 2, input[0] % 32, inner);
}

/// The round trip of a natural number.
pub proof fn lemma_unsigned_round_trip(
    heap: Seq<Slot>,
    n: nat,
    est: EncodeState,
    dst: DecodeState,
    rest: Seq<u8>,
)
    requires
        !est.string_referencing,
        plain(Item::Unsigned(n), dst.immutable),
        quiet(dst),
        dst.depth + depth(Item::Unsigned(n)) <= dst.max_depth,
    ensures
        comes_back(encode_item(heap, Item::Unsigned(n), est), Item::Unsigned(n), est, dst, rest),
{
    let item = Item::Unsigned(n);
    lemma_plain(item, dst.immutable);
    lemma_depth(item);
    lemma_encode_item(heap, item, est);
    lemma_radix_values();
    let inner = DecodeState { depth: dst.depth + 1, ..dst };
    if n < radix(8) {
        let input = head(0, n) + rest;
        lemma_take_head(0, n, rest);
        lemma_parse_item_unfold(input, dst);
        crate::parse_lemmas::lemma_parse_major(input.skip(1), 0, input[0] % 32, inner);
    } else {
        lemma_big_round_trip(heap, n, false, est, dst, rest);
    }
}

/// The round trip of a negative number.
pub proof fn lemma_negative_round_trip(
    heap: Seq<Slot>,
    n: nat,
    est: EncodeState,
    dst: DecodeState,
    rest: Seq<u8>,
)
    requires
        !est.string_referencing,
        plain(Item::Negative(n), dst.immutable),
        quiet(dst),
        dst.depth + depth(Item::Negative(n)) <= dst.max_depth,
    ensures
        comes_back(encode_item(heap, Item::Negative(n), est), Item::Negative(n), est, dst, rest),
{
    let item = Item::Negative(n);
    lemma_plain(item, dst.immutable);
    lemma_depth(item);
    lemma_encode_item(heap, item, est);
    lemma_radix_values();
    let inner = DecodeState { depth: dst.depth + 1, ..dst };
    if n < radix(8) {
        let input = head(1, n) + rest;
        lemma_take_head(1, n, rest);
        lemma_parse_item_unfold(input, dst);
        crate::parse_lemmas::lemma_parse_major(input.skip(1), 1, input[0] % 32, inner);
    } else {
        lemma_big_round_trip(heap, n, true, est, dst, rest);
    }
}

/// The round trip of a text string.
pub proof fn lemma_text_round_trip(
    heap: Seq<Slot>,
    s: Seq<char>,
    est: EncodeState,
    dst: DecodeState,
    rest: Seq<u8>,
)
    requires
        !est.string_referencing,
        plain(Item::Text(s), dst.immutable),
        quiet(dst),
        dst.depth + depth(Item::Text(s)) <= dst.max_depth,
    ensures
        comes_back(encode_item(heap, Item::Text(s), est), Item::Text(s), est, dst, rest),
{
    let item = Item::Text(s);
    lemma_plain(item, dst.immutable);
    lemma_depth(item);
    lemma_encode_item(heap, item, est);
    lemma_radix_values();
    let inner = DecodeState { depth: dst.depth + 1, ..dst };
    let payload = encode_utf8(s);
    let bytes = head(3, payload.len()) + payload;
    let input = bytes + rest;
    assert(input =~= head(3, payload.len()) + (payload + rest));
    lemma_take_head(3, payload.len(), payload + rest);
    lemma_parse_item_unfold(input, dst);
    lemma_take_bytes(payload, rest);
    lemma_text_of_encoded(s, dst.str_errors);
    crate::parse_lemmas::lemma_parse_major(input.skip(1), 3, input[0] % 32, inner);
}

/// The round trip of a simple value.
pub proof fn lemma_simple_round_trip(
    heap: Seq<Slot>,
    value: u8,
    est: EncodeState,
    dst: DecodeState,
    rest: Seq<u8>,
)
    requires
        !est.string_referencing,
        plain(Item::Simple(value), dst.immutable),
        quiet(dst),
        dst.depth + depth(Item::Simple(value)) <= dst.max_depth,
    ensures
        comes_back(encode_item(heap, Item::Simple(value), est), Item::Simple(value), est, dst, rest),
{
    let item = Item::Simple(value);
    lemma_plain(item, dst.immutable);
    lemma_depth(item);
    lemma_encode_item(heap, item, est);
    lemma_radix_values();
    let inner = DecodeState { depth: dst.depth + 1, ..dst };
    let bytes = simple_bytes(value);
    let input = bytes + rest;
    lemma_parse_item_unfold(input, dst);
    if value < 20 {
        assert(input.skip(1) =~= rest);
    } else {
        assert(input[0] == 0xf8);
        assert(input.skip(1) =~= seq![value] + rest);
        assert(seq![value] =~= be_bytes(value as nat, 1)) by {
            reveal_with_fuel(be_bytes, 2);
        }
        lemma_take_number(value as nat, 1, rest);
    }
    crate::parse_lemmas::lemma_parse_major(input.skip(1), 7, input[0] % 32, inner);
}

/// The round trip of a boolean.
pub proof fn lemma_bool_round_trip(
    heap: Seq<Slot>,
    b: bool,
    est: EncodeState,
    dst: DecodeState,
    rest: Seq<u8>,
)
    requires
        !est.string_referencing,
        plain(Item::Bool(b), dst.immutable),
        quiet(dst),
        dst.depth + depth(Item::Bool(b)) <= dst.max_depth,
    ensures
        comes_back(encode_item(heap, Item::Bool(b), est), Item::Bool(b), est, dst, rest),
{
    let item = Item::Bool(b);
    lemma_plain(item, dst.immutable);
    lemma_depth(item);
    lemma_encode_item(heap, item, est);
    lemma_radix_values();
    let inner = DecodeState { depth: dst.depth + 1, ..dst };
    let input = seq![
        if b {
            0xf5u8
        } else {
            0xf4u8
        },
    ] + rest;
    lemma_parse_item_unfold(input, dst);
    assert(input.skip(1) =~= rest);
    crate::parse_lemmas::lemma_parse_major(input.skip(1), 7, input[0] % 32, inner);
}

/// The round trip of a floating-point number.
pub proof fn lemma_float_round_trip(
    heap: Seq<Slot>,
    d: u64,
    est: EncodeState,
    dst: DecodeState,
    rest: Seq<u8>,
)
    requires
        !est.string_referencing,
        plain(Item::Float(d), dst.immutable),
        quiet(dst),
        dst.depth + depth(Item::Float(d)) <= dst.max_depth,
    ensures
        comes_back(encode_item(heap, Item::Float(d), est), Item::Float(d), est, dst, rest),
{
    let item = Item::Float(d);
    lemma_plain(item, dst.immutable);
    lemma_depth(item);
    lemma_encode_item(heap, item, est);
    lemma_radix_values();
    let inner = DecodeState { depth: dst.depth + 1, ..dst };
    reveal(float_bytes);
    lemma_special_halves();
    let bytes = float_bytes(d, est.canonical);
    let input = bytes + rest;
    lemma_parse_item_unfold(input, dst);
    let half = crate::floats::narrow(crate::floats::Precision::Half, d);
    let single = crate::floats::narrow(crate::floats::Precision::Single, d);
    if is_nan(d) || is_infinite(d) {
        let pattern: nat = if is_nan(d) {
            0x7e00
        } else if is_negative(d) {
            0xfc00
        } else {
            0x7c00
        };
        assert(input[0] == 0xf9);
        assert(be_bytes(pattern, 2) =~= seq![(pattern / 256) as u8, (pattern % 256) as u8])
            by {
            reveal_with_fuel(be_bytes, 3);
        }
        assert(input.skip(1) =~= be_bytes(pattern, 2) + rest);
        lemma_take_number(pattern, 2, rest);
        if is_infinite(d) {
            lemma_infinity_bits(d);
        }
    } else if est.canonical && half is Some {
        let h = half->0;
        crate::float_laws::lemma_widen_of_narrow(crate::floats::Precision::Half, d, h);
        assert(input[0] == 0xf9);
        lemma_be_bytes_len(h, 2);
        assert(input.skip(1) =~= be_bytes(h, 2) + rest);
        lemma_take_number(h, 2, rest);
    } else if est.canonical && single is Some {
        let x = single->0;
        crate::float_laws::lemma_widen_of_narrow(crate::floats::Precision::Single, d, x);
        assert(input[0] == 0xfa);
        lemma_be_bytes_len(x, 4);
        assert(input.skip(1) =~= be_bytes(x, 4) + rest);
        lemma_take_number(x, 4, rest);
    } else {
        assert(input[0] == 0xfb);
        lemma_be_bytes_len(d as nat, 8);
        assert(input.skip(1) =~= be_bytes(d as nat, 8) + rest);
        lemma_take_number(d as nat, 8, rest);
    }
    crate::parse_lemmas::lemma_parse_major(input.skip(1), 7, input[0] % 32, inner);
}

/// The round trip of null and `undefined`.
pub proof fn lemma_constant_round_trip(
    heap: Seq<Slot>,
    item: Item,
    est: EncodeState,
    dst: DecodeState,
    rest: Seq<u8>,
)
    requires
        !est.string_referencing,
        item is Null || item is Undefined,
        quiet(dst),
        dst.depth + 1 <= dst.max_depth,
    ensures
        comes_back(encode_item(heap, item, est), item, est, dst, rest),
{
    lemma_encode_item(heap, item, est);
    let inner = DecodeState { depth: dst.depth + 1, ..dst };
    let byte: u8 = if item is Null {
        0xf6
    } else {
        0xf7
    };
    let input = seq![byte] + rest;
    lemma_parse_item_unfold(input, dst);
    assert(input.skip(1) =~= rest);
    crate::parse_lemmas::lemma_parse_major(input.skip(1), 7, input[0] % 32, inner);
}

/// The round trip of the values without members.
pub proof fn lemma_scalar_round_trip(
    heap: Seq<Slot>,
    item: Item,
    est: EncodeState,
    dst: DecodeState,
    rest: Seq<u8>,
)
    requires
        !est.string_referencing,
        plain(item, dst.immutable),
        quiet(dst),
        dst.depth + depth(item) <= dst.max_depth,
        item is Unsigned || item is Negative || item is Bytes || item is Text || item is Simple
            || item is Bool || item is Null || item is Undefined || item is Float,
    ensures
        comes_back(encode_item(heap, item, est), item, est, dst, rest),
{
    lemma_plain(item, dst.immutable);
    lemma_depth(item);
    match item {
        Item::Unsigned(n) => lemma_unsigned_round_trip(heap, n, est, dst, rest),
        Item::Negative(n) => lemma_negative_round_trip(heap, n, est, dst, rest),
        Item::Bytes(b) => lemma_bytes_round_trip(heap, b, est, dst, rest),
        Item::Text(s) => lemma_text_round_trip(heap, s, est, dst, rest),
        Item::Simple(value) => lemma_simple_round_trip(heap, value, est, dst, rest),
        Item::Bool(b) => lemma_bool_round_trip(heap, b, est, dst, rest),
        Item::Float(d) => lemma_float_round_trip(heap, d, est, dst, rest),
        _ => lemma_constant_round_trip(heap, item, est, dst, rest),
    }
}

/// The bits of the two infinities.
pub proof fn lemma_infinity_bits(d: u64)
    requires
        is_infinite(d),
    ensures
        d == if is_negative(d) {
            0xfff0_0000_0000_0000u64
        } else {
            0x7ff0_0000_0000_0000u64
        },
{
    let q = d as nat / 0x10_0000_0000_0000;
    assert(d as nat == q * 0x10_0000_0000_0000 + d as nat % 0x10_0000_0000_0000);
    assert(q < 4096);
    assert(q % 2048 == 2047);
    assert(q == 2047 || q == 4095);
}

/// The round trip of an integer that does not fit the length field: tag 2
/// or 3 around the shortest bytes of the number.
pub proof fn lemma_big_round_trip(
    heap: Seq<Slot>,
    n: nat,
    negative: bool,
    est: EncodeState,
    dst: DecodeState,
    rest: Seq<u8>,
)
    requires
        !est.string_referencing,
        n >= radix(8),
        be_width(n) <= usize::MAX,
        quiet(dst),
        dst.depth + 2 <= dst.max_depth,
    ensures
        ({
            let item = if negative {
                Item::Negative(n)
            } else {
                Item::Unsigned(n)
            };
            comes_back(integer_bytes(n, negative, est), item, est, dst, rest)
        }),
{
    lemma_radix_values();
    let tag: u64 = if negative {
        3
    } else {
        2
    };
    let payload = be_minimal(n);
    lemma_be_bytes_len(n, be_width(n));
    let inner_bytes = head(2, payload.len()) + payload;
    let bytes = head(6, tag as nat) + inner_bytes;
    let input = bytes + rest;
    assert(input =~= head(6, tag as nat) + (inner_bytes + rest));
    lemma_take_head(6, tag as nat, inner_bytes + rest);
    lemma_parse_item_unfold(input, dst);
    let inner = DecodeState { depth: dst.depth + 1, ..dst };
    lemma_bytes_round_trip(heap, payload, est, inner, rest);
    crate::collections::lemma_minimal_twice(n);
    crate::parse_lemmas::lemma_parse_major(input.skip(1), 6, input[0] % 32, inner);
    crate::parse_lemmas::lemma_parse_tagged(input.skip(1), input[0] % 32, inner);
    assert(interpreted(tag, Item::Bytes(payload), dst.immutable) == Ok::<Item, crate::errors::DecodeError>(
        if negative {
            Item::Negative(n)
        } else {
            Item::Unsigned(n)
        },
    ));
}

/// Members without repetition are their own members without repetition.
pub proof fn lemma_distinct_of_distinct(items: Seq<Item>)
    requires
        items.no_duplicates(),
    ensures
        distinct(items) == items,
    decreases items.len(),
{
    if items.len() > 0 {
        let front = items.drop_last();
        lemma_distinct_of_distinct(front);
        if front.contains(items.last()) {
            let i = choose|i: int| 0 <= i < front.len() && front[i] == items.last();
            assert(items[i] == items[items.len() - 1]);
        }
        assert(front.push(items.last()) =~= items);
    }
}

/// The round trip of the members of a container, one after the other.
pub proof fn lemma_items_round_trip(
    heap: Seq<Slot>,
    items: Seq<Item>,
    est: EncodeState,
    dst: DecodeState,
    rest: Seq<u8>,
    acc: Seq<Item>,
)
    requires
        steady_options(est),
        est.canonical ==> none_holds_map(items),
        all_plain(items, dst.immutable),
        quiet(dst),
        dst.depth + deepest(items) <= dst.max_depth,
    ensures
        encode_items(heap, items, est) matches Encoded::Done { bytes, state } && state == est
            && parse_items(bytes + rest, items.len(), dst, acc) == (Parsed::Done {
            value: acc + items,
            rest,
            state: dst,
        }),
    decreases items, 0nat,
{
    lemma_none_holds_map(items);
    lemma_encode_items(heap, items, est);
    lemma_all_plain(items, dst.immutable);
    lemma_deepest(items);
    if items.len() == 0 {
        assert(Seq::<u8>::empty() + rest =~= rest);
        assert(acc + items =~= acc);
        crate::parse_lemmas::lemma_parse_items(rest, 0, dst, acc);
    } else {
        let first = items[0];
        let others = items.drop_first();
        lemma_items_round_trip(heap, others, est, dst, rest, acc.push(first));
        let tb = encode_items(heap, others, est)->bytes;
        lemma_round_trip(heap, first, est, dst, tb + rest);
        let fb = encode_item(heap, first, est)->bytes;
        let input = (fb + tb) + rest;
        assert(input =~= fb + (tb + rest));
        assert(acc.push(first) + others =~= acc + items);
        crate::parse_lemmas::lemma_parse_items(input, items.len(), dst, acc);
        assert(parse_items(input, items.len(), dst, acc) == parse_items(
            tb + rest,
            (items.len() - 1) as nat,
            dst,
            acc.push(first),
        ));
    }
}

/// The round trip of a list or tuple.
pub proof fn lemma_list_round_trip(
    heap: Seq<Slot>,
    items: Seq<Item>,
    est: EncodeState,
    dst: DecodeState,
    rest: Seq<u8>,
)
    requires
        steady_options(est),
        est.canonical ==> none_holds_map(items),
        items.len() < radix(8),
        all_plain(items, dst.immutable),
        quiet(dst),
        dst.depth + 1 + deepest(items) <= dst.max_depth,
    ensures
        comes_back(
            fresh_list(heap, items, est),
            if dst.immutable {
                Item::Tuple(items)
            } else {
                Item::Array(items)
            },
            est,
            dst,
            rest,
        ),
    decreases items, 2nat,
{
    lemma_fresh_list(heap, items, est);
    lemma_radix_values();
    let quiet_est = EncodeState { string_namespacing: false, next_index: est.next_index, ..est };
    assert(quiet_est == est);
    lemma_array_body(heap, items, est);
    let inner = DecodeState { depth: dst.depth + 1, ..dst };
    lemma_items_round_trip(heap, items, est, inner, rest, Seq::empty());
    let ib = encode_items(heap, items, est)->bytes;
    let bytes = head(4, items.len()) + ib;
    assert(Seq::<u8>::empty() + Seq::<u8>::empty() + (head(4, items.len()) + (ib + Seq::<
        u8,
    >::empty())) =~= bytes);
    let input = bytes + rest;
    assert(input =~= head(4, items.len()) + (ib + rest));
    lemma_take_head(4, items.len(), ib + rest);
    lemma_parse_item_unfold(input, dst);
    assert(input.skip(1).len() == input.len() - 1);
    assert((ib + rest).len() <= input.skip(1).len());
    assert(items.len() as u64 as nat == items.len());
    assert(Seq::<Item>::empty() + items =~= items);
    assert(claim(inner) == inner);
    crate::parse_lemmas::lemma_parse_major(input.skip(1), 4, input[0] % 32, inner);
    crate::parse_lemmas::lemma_parse_array(input.skip(1), input[0] % 32, inner);
}

/// The round trip of the entries of a map, one after the other.
pub proof fn lemma_entries_round_trip(
    heap: Seq<Slot>,
    entries: Seq<(Item, Item)>,
    est: EncodeState,
    dst: DecodeState,
    rest: Seq<u8>,
    acc: Seq<(Item, Item)>,
)
    requires
        plain_options(est),
        entries_plain(entries, dst.immutable),
        keys_differ(acc + entries),
        quiet(dst),
        dst.depth + deepest_entry(entries) <= dst.max_depth,
    ensures
        encode_entries(heap, entries, est) matches Encoded::Done { bytes, state } && state == est
            && parse_entries(bytes + rest, entries.len(), dst, acc) == (Parsed::Done {
            value: acc + entries,
            rest,
            state: dst,
        }),
    decreases entries, 0nat,
{
    lemma_encode_entries(heap, entries, est);
    lemma_entries_plain(entries, dst.immutable);
    lemma_deepest_entry(entries);
    if entries.len() == 0 {
        assert(Seq::<u8>::empty() + rest =~= rest);
        assert(acc + entries =~= acc);
        crate::parse_lemmas::lemma_parse_entries(rest, 0, dst, acc);
    } else {
        let key = entries[0].0;
        let value = entries[0].1;
        let others = entries.drop_first();
        let all = acc + entries;
        assert(acc.push((key, value)) + others =~= all);
        lemma_entries_round_trip(heap, others, est, dst, rest, acc.push((key, value)));
        let tb = encode_entries(heap, others, est)->bytes;
        lemma_encode_entry(heap, entries[0], est);
        lemma_round_trip(heap, value, est, dst, tb + rest);
        let vb = encode_item(heap, value, est)->bytes;
        let as_key = DecodeState { immutable: true, ..dst };
        lemma_round_trip(heap, key, est, as_key, vb + (tb + rest));
        let kb = encode_item(heap, key, est)->bytes;
        let input = ((kb + vb) + tb) + rest;
        assert(input =~= kb + (vb + (tb + rest)));
        assert(DecodeState { immutable: dst.immutable, ..as_key } == dst);
        assert forall|j: int| 0 <= j < acc.len() implies (#[trigger] acc[j]).0 != key by {
            assert(all[j] == acc[j]);
            assert(all[acc.len() as int] == entries[0]);
        }
        lemma_key_index(acc, key, acc.len() as int);
        assert(dict_insert(acc, key, value) == acc.push((key, value)));
        crate::parse_lemmas::lemma_parse_entry(input, dst, acc, false);
        crate::parse_lemmas::lemma_parse_entries(input, entries.len(), dst, acc);
        assert(parse_entry(input, dst, acc, false) == (Parsed::Done {
            value: (acc.push((key, value)), false),
            rest: tb + rest,
            state: dst,
        }));
        assert(parse_entries(input, entries.len(), dst, acc) == parse_entries(
            tb + rest,
            (entries.len() - 1) as nat,
            dst,
            acc.push((key, value)),
        ));
    }
}

/// The round trip of a map or frozen map.
pub proof fn lemma_dict_round_trip(
    heap: Seq<Slot>,
    entries: Seq<(Item, Item)>,
    est: EncodeState,
    dst: DecodeState,
    rest: Seq<u8>,
)
    requires
        plain_options(est),
        entries.len() < radix(8),
        entries_plain(entries, dst.immutable),
        keys_differ(entries),
        quiet(dst),
        dst.depth + 1 + deepest_entry(entries) <= dst.max_depth,
    ensures
        comes_back(
            fresh_dict(heap, entries, est),
            if dst.immutable {
                Item::FrozenDict(entries)
            } else {
                Item::Dict(entries)
            },
            est,
            dst,
            rest,
        ),
    decreases entries, 2nat,
{
    lemma_fresh_dict(heap, entries, est);
    lemma_radix_values();
    let quiet_est = EncodeState { string_namespacing: false, next_index: est.next_index, ..est };
    assert(quiet_est == est);
    lemma_map_body(heap, entries, est);
    lemma_map_entries(heap, entries, est);
    let inner = DecodeState { depth: dst.depth + 1, ..dst };
    assert(Seq::<(Item, Item)>::empty() + entries =~= entries);
    lemma_entries_round_trip(heap, entries, est, inner, rest, Seq::empty());
    let ib = encode_entries(heap, entries, est)->bytes;
    let bytes = head(5, entries.len()) + ib;
    assert(Seq::<u8>::empty() + Seq::<u8>::empty() + (head(5, entries.len()) + (ib + Seq::<
        u8,
    >::empty())) =~= bytes);
    let input = bytes + rest;
    assert(input =~= head(5, entries.len()) + (ib + rest));
    lemma_take_head(5, entries.len(), ib + rest);
    lemma_parse_item_unfold(input, dst);
    assert(input.skip(1).len() == input.len() - 1);
    assert((ib + rest).len() <= input.skip(1).len());
    assert(entries.len() as u64 as nat == entries.len());
    assert(claim(inner) == inner);
    crate::parse_lemmas::lemma_parse_major(input.skip(1), 5, input[0] % 32, inner);
    crate::parse_lemmas::lemma_parse_map(input.skip(1), input[0] % 32, inner);
}

/// The round trip of a set or frozen set.
pub proof fn lemma_set_round_trip(
    heap: Seq<Slot>,
    items: Seq<Item>,
    est: EncodeState,
    dst: DecodeState,
    rest: Seq<u8>,
)
    requires
        plain_options(est),
        items.len() < radix(8),
        all_plain(items, true),
        every_hashable(items),
        items.no_duplicates(),
        quiet(dst),
        dst.depth + 2 + deepest(items) <= dst.max_depth,
    ensures
        comes_back(
            set_bytes(heap, items, est),
            if dst.immutable {
                Item::FrozenSet(items)
            } else {
                Item::MutableSet(items)
            },
            est,
            dst,
            rest,
        ),
    decreases items, 3nat,
{
    lemma_set_bytes(heap, items, est);
    lemma_radix_values();
    let inner = DecodeState { depth: dst.depth + 1, ..dst };
    let context = DecodeState { immutable: true, ..inner };
    lemma_list_round_trip(heap, items, est, context, rest);
    let lb = fresh_list(heap, items, est)->bytes;
    let bytes = head(6, 258) + lb;
    let input = bytes + rest;
    assert(input =~= head(6, 258) + (lb + rest));
    lemma_take_head(6, 258, lb + rest);
    lemma_parse_item_unfold(input, dst);
    lemma_distinct_of_distinct(items);
    assert(DecodeState { immutable: dst.immutable, ..context } == inner);
    crate::parse_lemmas::lemma_parse_major(input.skip(1), 6, input[0] % 32, inner);
    crate::parse_lemmas::lemma_parse_tagged(input.skip(1), input[0] % 32, inner);
}

/// The round trip of a tag that the decoder keeps as it is.
pub proof fn lemma_tag_round_trip(
    heap: Seq<Slot>,
    tag: u64,
    content: Item,
    est: EncodeState,
    dst: DecodeState,
    rest: Seq<u8>,
)
    requires
        steady_options(est),
        est.canonical ==> holds_no_map(content),
        plain_tag(tag),
        plain(content, true),
        quiet(dst),
        dst.depth + 1 + depth(content) <= dst.max_depth,
    ensures
        comes_back(
            tagged_bytes(heap, tag, content, est),
            Item::Tag(tag, Box::new(content)),
            est,
            dst,
            rest,
        ),
    decreases content, 2nat,
{
    lemma_tagged_bytes(heap, tag, content, est);
    lemma_radix_values();
    let same = EncodeState { string_referencing: est.string_referencing || tag == 256, ..est };
    assert(same == est);
    let inner = DecodeState { depth: dst.depth + 1, ..dst };
    let context = DecodeState { immutable: true, ..claim(inner) };
    assert(claim(inner) == inner);
    lemma_round_trip(heap, content, est, context, rest);
    let cb = encode_item(heap, content, est)->bytes;
    let bytes = head(6, tag as nat) + cb;
    let input = bytes + rest;
    assert(input =~= head(6, tag as nat) + (cb + rest));
    lemma_take_head(6, tag as nat, cb + rest);
    lemma_parse_item_unfold(input, dst);
    assert(DecodeState { immutable: dst.immutable, ..context } == inner);
    crate::parse_lemmas::lemma_parse_major(input.skip(1), 6, input[0] % 32, inner);
    crate::parse_lemmas::lemma_parse_tagged(input.skip(1), input[0] % 32, inner);
}

/// The round trip of one value: decoding what the encoder writes for a
/// supported value gives the value back, leaves the bytes that follow, and
/// leaves both states as they were, whenever the value is nested no deeper
/// than the limit allows. In canonical mode this holds of the values that
/// hold no map and no set.
pub proof fn lemma_round_trip(
    heap: Seq<Slot>,
    item: Item,
    est: EncodeState,
    dst: DecodeState,
    rest: Seq<u8>,
)
    requires
        steady_options(est),
        est.canonical ==> holds_no_map(item),
        plain(item, dst.immutable),
        quiet(dst),
        dst.depth + depth(item) <= dst.max_depth,
    ensures
        comes_back(encode_item(heap, item, est), item, est, dst, rest),
    decreases item, 1nat,
{
    lemma_holds_no_map(item);
    lemma_plain(item, dst.immutable);
    lemma_depth(item);
    lemma_encode_item(heap, item, est);
    match item {
        Item::Array(items) => lemma_list_round_trip(heap, items, est, dst, rest),
        Item::Tuple(items) => lemma_list_round_trip(heap, items, est, dst, rest),
        Item::Dict(entries) => lemma_dict_round_trip(heap, entries, est, dst, rest),
        Item::FrozenDict(entries) => lemma_dict_round_trip(heap, entries, est, dst, rest),
        Item::MutableSet(items) => lemma_set_round_trip(heap, items, est, dst, rest),
        Item::FrozenSet(items) => lemma_set_round_trip(heap, items, est, dst, rest),
        Item::Tag(tag, content) => lemma_tag_round_trip(heap, tag, *content, est, dst, rest),
        _ => lemma_scalar_round_trip(heap, item, est, dst, rest),
    }
}

/// Decoding what was encoded gives the value back.
///
/// For every supported value that nests no deeper than the limit: the
/// encoder, at the top level, without value sharing, string references and
/// containers of indefinite length, writes bytes for it, and the decoder,
/// in its initial state and under any policy for invalid UTF-8, reads from
/// these bytes, whatever follows them, the value itself, leaves what
/// follows, and ends in its initial state. In canonical mode this holds of
/// the values that hold no map and no set: those are written in the order
/// of their sort keys.
pub proof fn law_round_trip(
    item: Item,
    est: EncodeState,
    policy: StrErrors,
    max_depth: usize,
    rest: Seq<u8>,
)
    requires
        steady_options(est),
        est.canonical ==> holds_no_map(item),
        plain(item, false),
        depth(item) <= max_depth,
    ensures
        crate::emit::encode_document(Seq::empty(), item, est) matches Encoded::Done {
            bytes,
            state,
        } && parse_item(bytes + rest, crate::parse::initial_state(policy, max_depth))
            == (Parsed::Done {
            value: item,
            rest,
            state: crate::parse::initial_state(policy, max_depth),
        }),
{
    let heap = Seq::<Slot>::empty();
    let begun = EncodeState { marks: crate::emit::fresh_marks(heap.len()), ..est };
    lemma_round_trip(heap, item, begun, crate::parse::initial_state(policy, max_depth), rest);
}

/// Encoding what was decoded gives an encoding of the same value.
///
/// Where bytes decode to a supported value that nests no deeper than the
/// limit, the encoder, without value sharing, string references and
/// containers of indefinite length, writes bytes for that value, and these
/// decode to the value again. In canonical mode this holds of the values
/// that hold no map and no set.
pub proof fn law_encoding_of_decoded(
    input: Seq<u8>,
    est: EncodeState,
    policy: StrErrors,
    max_depth: usize,
)
    requires
        steady_options(est),
        parse_item(input, crate::parse::initial_state(policy, max_depth)) matches Parsed::Done {
            value,
            ..
        } && plain(value, false) && depth(value) <= max_depth && (est.canonical
            ==> holds_no_map(value)),
    ensures
        ({
            let first = parse_item(input, crate::parse::initial_state(policy, max_depth))->value;
            crate::emit::encode_document(Seq::empty(), first, est) matches Encoded::Done {
                bytes,
                state,
            } && parse_item(bytes, crate::parse::initial_state(policy, max_depth)) matches Parsed::Done {
                value,
                ..
            } && value == first
        }),
{
    let first = parse_item(input, crate::parse::initial_state(policy, max_depth))->value;
    law_round_trip(first, est, policy, max_depth, Seq::empty());
    let bytes = crate::emit::encode_document(Seq::empty(), first, est)->bytes;
    assert(bytes + Seq::<u8>::empty() =~= bytes);
}

} // verus!
