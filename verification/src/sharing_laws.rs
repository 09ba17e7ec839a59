//! What holds of value sharing: lists and maps that hold themselves or
//! each other come back as they were, each in its place of the table of
//! shared values.

use crate::canonical_laws::order_free;
use crate::emit::encode_document;
use crate::emit::encode_item;
use crate::emit::encode_items;
use crate::emit::fresh_marks;
use crate::emit::unseen;
use crate::emit::EncodeState;
use crate::emit::Encoded;
use crate::emit::Mark;
use crate::emit_lemmas::lemma_array_body;
use crate::emit_lemmas::lemma_encode_item;
use crate::emit_lemmas::lemma_encode_items;
use crate::emit_lemmas::lemma_shared_bytes;
use crate::emit_lemmas::lemma_shared_content;
use crate::emit_lemmas::lemma_shared_first;
use crate::parse::initial_state;
use crate::parse::parse_body;
use crate::parse::parse_item;
use crate::parse::parse_items;
use crate::parse::DecodeState;
use crate::parse::Parsed;
use crate::parse::Slot;
use crate::parse_lemmas::lemma_parse_array;
use crate::parse_lemmas::lemma_parse_body;
use crate::parse_lemmas::lemma_parse_item;
use crate::parse_lemmas::lemma_parse_items;
use crate::parse_lemmas::lemma_parse_major;
use crate::parse_lemmas::lemma_parse_tagged;
use crate::roundtrip::lemma_depth;
use crate::roundtrip::lemma_plain;
use crate::roundtrip::lemma_scalar_round_trip;
use crate::roundtrip::lemma_take_head;
use crate::text::StrErrors;
use crate::value::Item;
use crate::wire::head;
use crate::wire::lemma_radix_values;
use crate::wire::radix;
use crate::parse::claim;
use crate::collections::hashable;
use crate::collections::dict_insert;
use crate::collections::lemma_key_index;
use crate::roundtrip::keys_differ;
use crate::emit::encode_entries;
use crate::emit_lemmas::lemma_encode_entries;
use crate::emit_lemmas::lemma_encode_entry;
use crate::emit_lemmas::lemma_map_body;
use crate::emit_lemmas::lemma_map_entries;
use crate::parse::parse_entries;
use crate::parse::parse_entry;
use crate::parse_lemmas::lemma_parse_entries;
use crate::parse_lemmas::lemma_parse_entry;
use crate::parse_lemmas::lemma_parse_map;
use vstd::prelude::*;

verus! {

/// Whether every member is the list in slot 0 itself or a supported value
/// without members.
pub open spec fn members_of_cycle(items: Seq<Item>) -> bool {
    forall|i: int|
        0 <= i < items.len() ==> (#[trigger] items[i]) == Item::Shared(0) || order_free(items[i])
}

/// The options under which the law of the cycle is stated: value sharing
/// is on, strings are written out, containers have definite length.
pub open spec fn sharing_options(st: EncodeState) -> bool {
    &&& st.value_sharing
    &&& !st.string_referencing
    &&& !st.string_namespacing
    &&& !st.indefinite_containers
}

/// With value sharing, a list that holds itself comes back as itself.
///
/// For a list in slot 0 of the table of shared values whose members are
/// the list itself or supported values without members: the encoder writes
/// bytes for the reference to the list, and the decoder reads from these
/// bytes a reference to slot 0 and leaves the list, with the same members
/// and the references to itself among them, in slot 0 of its table.
pub proof fn law_self_referential_list(
    items: Seq<Item>,
    st: EncodeState,
    policy: StrErrors,
    max_depth: usize,
    rest: Seq<u8>,
)
    requires
        sharing_options(st),
        st.next_index == 0,
        items.len() < radix(8),
        members_of_cycle(items),
        max_depth >= 4,
    ensures
        ({
            let heap = seq![Slot::Filled(Item::Array(items))];
            let start = initial_state(policy, max_depth);
            &&& encode_document(heap, Item::Shared(0), st) is Done
            &&& parse_item(encode_document(heap, Item::Shared(0), st)->bytes + rest, start)
                == (Parsed::Done { value: Item::Shared(0), rest, state: start })
            &&& parse_body(
                encode_document(heap, Item::Shared(0), st)->bytes + rest,
                start,
            )->state.shareables == heap
        }),
{
    let heap = seq![Slot::Filled(Item::Array(items))];
    assert(all_in_reach(items, 1, 1)) by {
        assert forall|i: int| 0 <= i < items.len() implies in_reach(#[trigger] items[i], 1, 1) by {
            assert(items[i] == Item::Shared(0) || order_free(items[i]));
        }
    }
    assert(met_in_order(heap)) by {
        assert forall|k: int| 0 <= k < heap.len() implies slot_in_order(
            #[trigger] heap[k],
            k as nat,
            heap.len(),
        ) by {
            assert(heap[k] == Slot::Filled(Item::Array(items)));
        }
    }
    assert(lists_only(heap)) by {
        assert forall|k: int| 0 <= k < heap.len() implies !((#[trigger] heap[k]) matches Slot::Filled(
            Item::Dict(_),
        )) by {
            assert(heap[k] == Slot::Filled(Item::Array(items)));
        }
    }
    law_containers_met_in_order(heap, st, policy, max_depth, rest);
    let start = initial_state(policy, max_depth);
    let read = parse_body(encode_document(heap, Item::Shared(0), st)->bytes + rest, start);
    assert(heap.take(1) =~= heap);
}

/// The marks when the first `m` of `n` lists are met, each under the index
/// of its place.
pub open spec fn marks_at(n: nat, m: nat) -> Seq<Mark> {
    Seq::new(
        n,
        |i: int|
            if i < m {
                Mark::Indexed(i as u64)
            } else {
                Mark::Unseen
            },
    )
}

/// The state of the encoder when the first `m` of `n` lists are met.
pub open spec fn writing(st: EncodeState, n: nat, m: nat) -> EncodeState {
    EncodeState { marks: marks_at(n, m), next_index: m as u64, string_namespacing: false, ..st }
}

/// The state of the decoder at depth `d` with the table `arena`.
pub open spec fn reading(policy: StrErrors, max_depth: usize, d: nat, arena: Seq<Slot>)
    -> DecodeState {
    DecodeState { depth: d, shareables: arena, ..initial_state(policy, max_depth) }
}

/// The table of the decoder when the lists up to place `m` are read: what
/// it held, then the lists of the encoder's table from there on.
pub open spec fn grown(arena: Seq<Slot>, heap: Seq<Slot>, m: nat) -> Seq<Slot> {
    arena + heap.subrange(arena.len() as int, m as int)
}

/// Whether the table of the decoder holds, for each list that was begun,
/// the list of the encoder's table or the mark of a list whose members are
/// still being read.
pub open spec fn arena_of(arena: Seq<Slot>, heap: Seq<Slot>) -> bool {
    &&& arena.len() <= heap.len()
    &&& forall|i: int| 0 <= i < arena.len() ==> (#[trigger] arena[i]) is Building || arena[i] == heap[i]
}

/// Whether a member is a supported value without members or a reference
/// to a list at a place up to `bound`.
pub open spec fn in_reach(member: Item, bound: nat, n: nat) -> bool {
    order_free(member) || (member matches Item::Shared(j) && j <= bound && j < n)
}

/// Whether every member is a supported value without members or a
/// reference to a list at a place up to `bound`.
pub open spec fn all_in_reach(items: Seq<Item>, bound: nat, n: nat) -> bool {
    forall|i: int| 0 <= i < items.len() ==> in_reach(#[trigger] items[i], bound, n)
}

/// Whether every key is a supported value without members that can be a
/// key, and every value a supported value without members or a reference
/// to a container at a place up to `bound`.
pub open spec fn all_entries_in_reach(entries: Seq<(Item, Item)>, bound: nat, n: nat) -> bool {
    forall|i: int|
        0 <= i < entries.len() ==> order_free((#[trigger] entries[i]).0) && hashable(entries[i].0)
            && in_reach(entries[i].1, bound, n)
}

/// Whether the container at place `k` of `n` holds only what its place
/// allows: supported values without members, and references to containers
/// at places up to `k + 1`.
pub open spec fn slot_in_order(slot: Slot, k: nat, n: nat) -> bool {
    match slot {
        Slot::Filled(Item::Array(items)) => items.len() < radix(8) && all_in_reach(
            items,
            k + 1,
            n,
        ),
        Slot::Filled(Item::Dict(entries)) => entries.len() < radix(8) && keys_differ(entries)
            && all_entries_in_reach(entries, k + 1, n),
        _ => false,
    }
}

/// Whether the table holds lists and maps in the order in which the
/// encoder meets them: the members of the container at place `k` are
/// supported values without members and references to containers at places
/// up to `k + 1`. A container may so hold itself, a container met before,
/// or the container that is met next; through that one it may hold itself
/// indirectly.
pub open spec fn met_in_order(heap: Seq<Slot>) -> bool {
    &&& heap.len() < u64::MAX
    &&& forall|k: int| 0 <= k < heap.len() ==> slot_in_order(#[trigger] heap[k], k as nat, heap.len())
}

/// Whether the table holds no map.
pub open spec fn lists_only(heap: Seq<Slot>) -> bool {
    forall|k: int| 0 <= k < heap.len() ==> !((#[trigger] heap[k]) matches Slot::Filled(Item::Dict(_)))
}

/// Of `n` lists of which the first `m` are met, `n - m` are not.
pub proof fn lemma_unseen_at(n: nat, m: nat)
    requires
        m <= n,
    ensures
        unseen(marks_at(n, m)) == n - m,
    decreases n,
{
    if n > 0 {
        let marks = marks_at(n, m);
        if m < n {
            assert(marks.drop_last() =~= marks_at((n - 1) as nat, m));
            lemma_unseen_at((n - 1) as nat, m);
        } else {
            assert(marks.drop_last() =~= marks_at((n - 1) as nat, (n - 1) as nat));
            lemma_unseen_at((n - 1) as nat, (n - 1) as nat);
        }
    }
}

/// The round trip of a list that is met for the first time, at place `m`
/// when `m` lists are met: the encoder writes it behind a shareable marker
/// and meets the lists up to some place on the way; the decoder reads a
/// reference to place `m`, and its table grows by the same lists.
pub proof fn lemma_new_list(
    heap: Seq<Slot>,
    st: EncodeState,
    m: nat,
    arena: Seq<Slot>,
    policy: StrErrors,
    max_depth: usize,
    d: nat,
    rest: Seq<u8>,
)
    requires
        sharing_options(st),
        st.canonical ==> lists_only(heap),
        met_in_order(heap),
        m < heap.len(),
        heap[m as int] matches Slot::Filled(Item::Array(_)),
        arena.len() == m,
        arena_of(arena, heap),
        d + 2 * (heap.len() - m) + 2 <= max_depth,
    ensures
        encode_item(heap, Item::Shared(m), writing(st, heap.len(), m)) matches Encoded::Done {
            bytes,
            state,
        } && bytes.len() > 0 && m < state.next_index <= heap.len() && state == writing(
            st,
            heap.len(),
            state.next_index as nat,
        ) && parse_body(bytes + rest, reading(policy, max_depth, d, arena)) == (Parsed::Done {
            value: Item::Shared(m),
            rest,
            state: reading(
                policy,
                max_depth,
                d + 1,
                grown(arena, heap, state.next_index as nat),
            ),
        }),
    decreases heap.len() - m, 0nat,
{
    let n = heap.len();
    let est = writing(st, n, m);
    let items = heap[m as int]->Filled_0->Array_0;
    assert(heap[m as int] == Slot::Filled(Item::Array(items)));
    assert(slot_in_order(heap[m as int], m, n));
    lemma_radix_values();
    // what the encoder writes
    lemma_encode_item(heap, Item::Shared(m), est);
    lemma_shared_bytes(heap, m, est);
    lemma_shared_first(heap, m, Item::Array(items), est);
    let inner = writing(st, n, m + 1);
    assert(est.marks.update(m as int, Mark::Indexed(m as u64)) =~= inner.marks);
    lemma_unseen_at(n, m);
    lemma_unseen_at(n, m + 1);
    lemma_shared_content(heap, Item::Array(items), inner);
    lemma_array_body(heap, items, inner);
    let arena1 = arena.push(Slot::Building);
    lemma_members_in_order(
        heap,
        items,
        st,
        m + 1,
        arena1,
        policy,
        max_depth,
        d + 2,
        rest,
        Seq::empty(),
    );
    let done = encode_items(heap, items, inner);
    let ib = done->bytes;
    let m2 = done->state.next_index as nat;
    let list = head(4, items.len()) + ib;
    assert(head(4, items.len()) + (ib + Seq::<u8>::empty()) =~= list);
    let bytes = head(6, 28) + list;
    assert(Seq::<u8>::empty() + head(6, 28) + list =~= bytes);
    // what the decoder reads
    let start = reading(policy, max_depth, d, arena);
    let input = bytes + rest;
    assert(input =~= head(6, 28) + (list + rest));
    lemma_take_head(6, 28, list + rest);
    lemma_parse_body(input, start);
    let tagged = DecodeState { depth: d + 1, ..start };
    lemma_parse_major(input.skip(1), 6, input[0] % 32, tagged);
    lemma_parse_tagged(input.skip(1), input[0] % 32, tagged);
    let marked = DecodeState {
        share_index: Some(m),
        shareables: arena.push(Slot::Pending),
        ..tagged
    };
    let inner_input = list + rest;
    assert(inner_input =~= head(4, items.len()) + (ib + rest));
    lemma_take_head(4, items.len(), ib + rest);
    lemma_parse_item(inner_input, marked);
    lemma_parse_body(inner_input, marked);
    let listed = DecodeState { depth: d + 2, ..marked };
    lemma_parse_major(inner_input.skip(1), 4, inner_input[0] % 32, listed);
    lemma_parse_array(inner_input.skip(1), inner_input[0] % 32, listed);
    assert(claim(listed) == reading(policy, max_depth, d + 2, arena1)) by {
        assert(marked.shareables.update(m as int, Slot::Building) =~= arena1);
    }
    assert(Seq::<Item>::empty() + items =~= items);
    assert(inner_input.skip(1).len() == inner_input.len() - 1);
    assert((ib + rest).len() <= inner_input.skip(1).len());
    assert(items.len() as u64 as nat == items.len());
    assert(grown(arena1, heap, m2).update(m as int, Slot::Filled(Item::Array(items))) =~= grown(
        arena,
        heap,
        m2,
    ));
}

/// The round trip of a map that is met for the first time, at place `m`
/// when `m` containers are met.
pub proof fn lemma_new_dict(
    heap: Seq<Slot>,
    st: EncodeState,
    m: nat,
    arena: Seq<Slot>,
    policy: StrErrors,
    max_depth: usize,
    d: nat,
    rest: Seq<u8>,
)
    requires
        sharing_options(st),
        !st.canonical,
        met_in_order(heap),
        m < heap.len(),
        heap[m as int] matches Slot::Filled(Item::Dict(_)),
        arena.len() == m,
        arena_of(arena, heap),
        d + 2 * (heap.len() - m) + 2 <= max_depth,
    ensures
        encode_item(heap, Item::Shared(m), writing(st, heap.len(), m)) matches Encoded::Done {
            bytes,
            state,
        } && bytes.len() > 0 && m < state.next_index <= heap.len() && state == writing(
            st,
            heap.len(),
            state.next_index as nat,
        ) && parse_body(bytes + rest, reading(policy, max_depth, d, arena)) == (Parsed::Done {
            value: Item::Shared(m),
            rest,
            state: reading(
                policy,
                max_depth,
                d + 1,
                grown(arena, heap, state.next_index as nat),
            ),
        }),
    decreases heap.len() - m, 0nat,
{
    let n = heap.len();
    let est = writing(st, n, m);
    let entries = heap[m as int]->Filled_0->Dict_0;
    assert(heap[m as int] == Slot::Filled(Item::Dict(entries)));
    assert(slot_in_order(heap[m as int], m, n));
    lemma_radix_values();
    // what the encoder writes
    lemma_encode_item(heap, Item::Shared(m), est);
    lemma_shared_bytes(heap, m, est);
    lemma_shared_first(heap, m, Item::Dict(entries), est);
    let inner = writing(st, n, m + 1);
    assert(est.marks.update(m as int, Mark::Indexed(m as u64)) =~= inner.marks);
    lemma_unseen_at(n, m);
    lemma_unseen_at(n, m + 1);
    lemma_shared_content(heap, Item::Dict(entries), inner);
    lemma_map_body(heap, entries, inner);
    lemma_map_entries(heap, entries, inner);
    let arena1 = arena.push(Slot::Building);
    assert(Seq::<(Item, Item)>::empty() + entries =~= entries);
    lemma_entries_in_order(
        heap,
        entries,
        st,
        m + 1,
        arena1,
        policy,
        max_depth,
        d + 2,
        rest,
        Seq::empty(),
    );
    let done = encode_entries(heap, entries, inner);
    let ib = done->bytes;
    let m2 = done->state.next_index as nat;
    let map = head(5, entries.len()) + ib;
    assert(head(5, entries.len()) + (ib + Seq::<u8>::empty()) =~= map);
    let bytes = head(6, 28) + map;
    assert(Seq::<u8>::empty() + head(6, 28) + map =~= bytes);
    // what the decoder reads
    let start = reading(policy, max_depth, d, arena);
    let input = bytes + rest;
    assert(input =~= head(6, 28) + (map + rest));
    lemma_take_head(6, 28, map + rest);
    lemma_parse_body(input, start);
    let tagged = DecodeState { depth: d + 1, ..start };
    lemma_parse_major(input.skip(1), 6, input[0] % 32, tagged);
    lemma_parse_tagged(input.skip(1), input[0] % 32, tagged);
    let marked = DecodeState {
        share_index: Some(m),
        shareables: arena.push(Slot::Pending),
        ..tagged
    };
    let inner_input = map + rest;
    assert(inner_input =~= head(5, entries.len()) + (ib + rest));
    lemma_take_head(5, entries.len(), ib + rest);
    lemma_parse_item(inner_input, marked);
    lemma_parse_body(inner_input, marked);
    let opened = DecodeState { depth: d + 2, ..marked };
    lemma_parse_major(inner_input.skip(1), 5, inner_input[0] % 32, opened);
    lemma_parse_map(inner_input.skip(1), inner_input[0] % 32, opened);
    assert(claim(opened) == reading(policy, max_depth, d + 2, arena1)) by {
        assert(marked.shareables.update(m as int, Slot::Building) =~= arena1);
    }
    assert(inner_input.skip(1).len() == inner_input.len() - 1);
    assert((ib + rest).len() <= inner_input.skip(1).len());
    assert(entries.len() as u64 as nat == entries.len());
    assert(grown(arena1, heap, m2).update(m as int, Slot::Filled(Item::Dict(entries))) =~= grown(
        arena,
        heap,
        m2,
    ));
}

/// The round trip of the entries of a map, one after the other, when `m`
/// containers are met before the first of them.
pub proof fn lemma_entries_in_order(
    heap: Seq<Slot>,
    entries: Seq<(Item, Item)>,
    st: EncodeState,
    m: nat,
    arena: Seq<Slot>,
    policy: StrErrors,
    max_depth: usize,
    d: nat,
    rest: Seq<u8>,
    acc: Seq<(Item, Item)>,
)
    requires
        sharing_options(st),
        !st.canonical,
        met_in_order(heap),
        m <= heap.len(),
        arena.len() == m,
        arena_of(arena, heap),
        all_entries_in_reach(entries, m, heap.len()),
        keys_differ(acc + entries),
        d >= 1,
        d + 2 * (heap.len() - m) + 2 <= max_depth,
    ensures
        encode_entries(heap, entries, writing(st, heap.len(), m)) matches Encoded::Done {
            bytes,
            state,
        } && m <= state.next_index <= heap.len() && state == writing(
            st,
            heap.len(),
            state.next_index as nat,
        ) && parse_entries(bytes + rest, entries.len(), reading(policy, max_depth, d, arena), acc)
            == (Parsed::Done {
            value: acc + entries,
            rest,
            state: reading(policy, max_depth, d, grown(arena, heap, state.next_index as nat)),
        }),
    decreases heap.len() - m, 2 + entries.len(),
{
    let n = heap.len();
    let est = writing(st, n, m);
    let dst = reading(policy, max_depth, d, arena);
    lemma_encode_entries(heap, entries, est);
    if entries.len() == 0 {
        assert(Seq::<u8>::empty() + rest =~= rest);
        assert(acc + entries =~= acc);
        assert(grown(arena, heap, m) =~= arena);
        lemma_parse_entries(rest, 0, dst, acc);
    } else {
        let key = entries[0].0;
        let value = entries[0].1;
        let others = entries.drop_first();
        let all = acc + entries;
        assert(acc.push((key, value)) + others =~= all);
        assert(order_free(key) && hashable(key) && in_reach(value, m, n));
        assert(all_entries_in_reach(others, m, n)) by {
            assert forall|i: int| 0 <= i < others.len() implies order_free(
                (#[trigger] others[i]).0,
            ) && hashable(others[i].0) && in_reach(others[i].1, m, n) by {
                assert(others[i] == entries[i + 1]);
            }
        }
        lemma_encode_entry(heap, entries[0], est);
        // the key leaves the encoder where it is
        lemma_plain(key, true);
        lemma_depth(key);
        let as_key = DecodeState { immutable: true, ..dst };
        lemma_scalar_round_trip(heap, key, est, as_key, Seq::empty());
        let kb = encode_item(heap, key, est)->bytes;
        // how far the value takes the encoder
        lemma_member_in_order(heap, value, st, m, arena, policy, max_depth, d, Seq::empty());
        let after_value = encode_item(heap, value, est);
        let vb = after_value->bytes;
        let m1 = after_value->state.next_index as nat;
        lemma_unseen_at(n, m);
        lemma_unseen_at(n, m1);
        let arena1 = grown(arena, heap, m1);
        assert(all_entries_in_reach(others, m1, n)) by {
            assert forall|i: int| 0 <= i < others.len() implies order_free(
                (#[trigger] others[i]).0,
            ) && hashable(others[i].0) && in_reach(others[i].1, m1, n) by {
                assert(in_reach(others[i].1, m, n));
            }
        }
        lemma_entries_in_order(
            heap,
            others,
            st,
            m1,
            arena1,
            policy,
            max_depth,
            d,
            rest,
            acc.push((key, value)),
        );
        let after_others = encode_entries(heap, others, writing(st, n, m1));
        let tb = after_others->bytes;
        let m2 = after_others->state.next_index as nat;
        lemma_member_in_order(heap, value, st, m, arena, policy, max_depth, d, tb + rest);
        lemma_scalar_round_trip(heap, key, est, as_key, vb + (tb + rest));
        let input = ((kb + vb) + tb) + rest;
        assert(input =~= kb + (vb + (tb + rest)));
        assert(DecodeState { immutable: dst.immutable, ..as_key } == dst);
        assert forall|j: int| 0 <= j < acc.len() implies (#[trigger] acc[j]).0 != key by {
            assert(all[j] == acc[j]);
            assert(all[acc.len() as int] == entries[0]);
        }
        lemma_key_index(acc, key, acc.len() as int);
        assert(dict_insert(acc, key, value) == acc.push((key, value)));
        assert(grown(arena1, heap, m2) =~= grown(arena, heap, m2));
        let after_entry = reading(policy, max_depth, d, arena1);
        lemma_parse_entry(input, dst, acc, false);
        lemma_parse_entries(input, entries.len(), dst, acc);
        assert(parse_entry(input, dst, acc, false) == (Parsed::Done {
            value: (acc.push((key, value)), false),
            rest: tb + rest,
            state: after_entry,
        }));
    }
}

/// The round trip of one member of a list when `m` lists are met: a
/// supported value without members, a reference to a list met before, or a
/// reference to the list that is met next.
pub proof fn lemma_member_in_order(
    heap: Seq<Slot>,
    member: Item,
    st: EncodeState,
    m: nat,
    arena: Seq<Slot>,
    policy: StrErrors,
    max_depth: usize,
    d: nat,
    rest: Seq<u8>,
)
    requires
        sharing_options(st),
        st.canonical ==> lists_only(heap),
        met_in_order(heap),
        m <= heap.len(),
        arena.len() == m,
        arena_of(arena, heap),
        in_reach(member, m, heap.len()),
        d >= 1,
        d + 2 * (heap.len() - m) + 2 <= max_depth,
    ensures
        encode_item(heap, member, writing(st, heap.len(), m)) matches Encoded::Done {
            bytes,
            state,
        } && bytes.len() > 0 && m <= state.next_index <= heap.len() && state == writing(
            st,
            heap.len(),
            state.next_index as nat,
        ) && parse_item(bytes + rest, reading(policy, max_depth, d, arena)) == (Parsed::Done {
            value: member,
            rest,
            state: reading(policy, max_depth, d, grown(arena, heap, state.next_index as nat)),
        }),
    decreases heap.len() - m, 1nat,
{
    let n = heap.len();
    let est = writing(st, n, m);
    let dst = reading(policy, max_depth, d, arena);
    lemma_radix_values();
    assert(grown(arena, heap, m) =~= arena);
    match member {
        Item::Shared(j) => {
            assert(slot_in_order(heap[j as int], j, n));
            if j == m {
                match heap[m as int] {
                    Slot::Filled(Item::Array(_)) => {
                        lemma_new_list(heap, st, m, arena, policy, max_depth, d, rest);
                    },
                    _ => {
                        lemma_new_dict(heap, st, m, arena, policy, max_depth, d, rest);
                    },
                }
                let bytes = encode_item(heap, member, est)->bytes;
                lemma_parse_item(bytes + rest, dst);
            } else {
                assert(heap[j as int] is Filled);
                lemma_encode_item(heap, member, est);
                lemma_shared_bytes(heap, j, est);
                let bytes = head(6, 29) + head(0, j);
                assert(Seq::<u8>::empty() + head(6, 29) + head(0, j) =~= bytes);
                let input = bytes + rest;
                assert(input =~= head(6, 29) + (head(0, j) + rest));
                lemma_take_head(6, 29, head(0, j) + rest);
                lemma_parse_item(input, dst);
                lemma_parse_body(input, dst);
                let inner = DecodeState { depth: d + 1, ..dst };
                lemma_parse_major(input.skip(1), 6, input[0] % 32, inner);
                lemma_parse_tagged(input.skip(1), input[0] % 32, inner);
                lemma_plain(Item::Unsigned(j), false);
                lemma_depth(Item::Unsigned(j));
                lemma_scalar_round_trip(heap, Item::Unsigned(j), est, inner, rest);
                lemma_encode_item(heap, Item::Unsigned(j), est);
                assert(arena[j as int] is Building || arena[j as int] == heap[j as int]);
            }
        },
        _ => {
            lemma_plain(member, true);
            lemma_plain(member, false);
            lemma_depth(member);
            lemma_scalar_round_trip(heap, member, est, dst, rest);
        },
    }
}

/// The round trip of the members of a list, one after the other, when `m`
/// lists are met before the first of them.
pub proof fn lemma_members_in_order(
    heap: Seq<Slot>,
    items: Seq<Item>,
    st: EncodeState,
    m: nat,
    arena: Seq<Slot>,
    policy: StrErrors,
    max_depth: usize,
    d: nat,
    rest: Seq<u8>,
    acc: Seq<Item>,
)
    requires
        sharing_options(st),
        st.canonical ==> lists_only(heap),
        met_in_order(heap),
        m <= heap.len(),
        arena.len() == m,
        arena_of(arena, heap),
        all_in_reach(items, m, heap.len()),
        d >= 1,
        d + 2 * (heap.len() - m) + 2 <= max_depth,
    ensures
        encode_items(heap, items, writing(st, heap.len(), m)) matches Encoded::Done {
            bytes,
            state,
        } && m <= state.next_index <= heap.len() && state == writing(
            st,
            heap.len(),
            state.next_index as nat,
        ) && parse_items(bytes + rest, items.len(), reading(policy, max_depth, d, arena), acc)
            == (Parsed::Done {
            value: acc + items,
            rest,
            state: reading(policy, max_depth, d, grown(arena, heap, state.next_index as nat)),
        }),
    decreases heap.len() - m, 2 + items.len(),
{
    let n = heap.len();
    let est = writing(st, n, m);
    let dst = reading(policy, max_depth, d, arena);
    lemma_encode_items(heap, items, est);
    if items.len() == 0 {
        assert(Seq::<u8>::empty() + rest =~= rest);
        assert(acc + items =~= acc);
        assert(grown(arena, heap, m) =~= arena);
        lemma_parse_items(rest, 0, dst, acc);
    } else {
        let first = items[0];
        let others = items.drop_first();
        assert(all_in_reach(others, m, n)) by {
            assert forall|i: int| 0 <= i < others.len() implies in_reach(
                #[trigger] others[i],
                m,
                n,
            ) by {
                assert(others[i] == items[i + 1]);
            }
        }
        // how far the first member takes the encoder
        lemma_member_in_order(heap, first, st, m, arena, policy, max_depth, d, Seq::empty());
        let after_first = encode_item(heap, first, est);
        let fb = after_first->bytes;
        let m1 = after_first->state.next_index as nat;
        lemma_unseen_at(n, m);
        lemma_unseen_at(n, m1);
        let arena1 = grown(arena, heap, m1);
        assert(all_in_reach(others, m1, n)) by {
            assert forall|i: int| 0 <= i < others.len() implies in_reach(
                #[trigger] others[i],
                m1,
                n,
            ) by {
                assert(in_reach(others[i], m, n));
            }
        }
        lemma_members_in_order(
            heap,
            others,
            st,
            m1,
            arena1,
            policy,
            max_depth,
            d,
            rest,
            acc.push(first),
        );
        let after_others = encode_items(heap, others, writing(st, n, m1));
        let tb = after_others->bytes;
        let m2 = after_others->state.next_index as nat;
        lemma_member_in_order(heap, first, st, m, arena, policy, max_depth, d, tb + rest);
        let input = (fb + tb) + rest;
        assert(input =~= fb + (tb + rest));
        assert(acc.push(first) + others =~= acc + items);
        assert(grown(arena1, heap, m2) =~= grown(arena, heap, m2));
        lemma_parse_items(input, items.len(), dst, acc);
    }
}

/// With value sharing, containers that hold each other come back as they
/// were.
///
/// For a table of lists and maps in the order in which the encoder meets
/// them, whose members are supported values without members and references
/// to containers of the table: the encoder writes bytes for the reference
/// to the first container, and the decoder reads from these bytes a
/// reference to the first place and leaves in its table, place by place,
/// the containers of the encoder's table that were met, with the same
/// members and the same references among them. So a container that holds
/// itself, directly or through others, comes back holding itself in the
/// same way. In canonical mode this is stated of lists: the entries of a
/// map are then written in the order of their keys.
pub proof fn law_containers_met_in_order(
    heap: Seq<Slot>,
    st: EncodeState,
    policy: StrErrors,
    max_depth: usize,
    rest: Seq<u8>,
)
    requires
        sharing_options(st),
        st.canonical ==> lists_only(heap),
        st.next_index == 0,
        heap.len() > 0,
        met_in_order(heap),
        2 * heap.len() + 2 <= max_depth,
    ensures
        ({
            let start = initial_state(policy, max_depth);
            let written = encode_document(heap, Item::Shared(0), st);
            let read = parse_body(written->bytes + rest, start);
            &&& written is Done
            &&& parse_item(written->bytes + rest, start) == (Parsed::Done {
                value: Item::Shared(0),
                rest,
                state: start,
            })
            &&& read is Done
            &&& 0 < read->state.shareables.len() <= heap.len()
            &&& read->state.shareables == heap.take(read->state.shareables.len() as int)
        }),
{
    let n = heap.len();
    let start = initial_state(policy, max_depth);
    let begun = EncodeState { marks: fresh_marks(n), ..st };
    assert(fresh_marks(n) =~= marks_at(n, 0));
    assert(begun == writing(st, n, 0));
    assert(start == reading(policy, max_depth, 0, Seq::empty()));
    assert(slot_in_order(heap[0], 0, n));
    match heap[0] {
        Slot::Filled(Item::Array(_)) => {
            lemma_new_list(heap, st, 0, Seq::empty(), policy, max_depth, 0, rest);
        },
        _ => {
            lemma_new_dict(heap, st, 0, Seq::empty(), policy, max_depth, 0, rest);
        },
    }
    let done = encode_item(heap, Item::Shared(0), begun);
    let m = done->state.next_index as nat;
    lemma_parse_item(done->bytes + rest, start);
    assert(grown(Seq::empty(), heap, m) =~= heap.take(m as int));
}

} // verus!
