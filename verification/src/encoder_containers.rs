//! The encoder on containers, tags and references, and the dispatch over
//! the kinds of values.

use crate::decoder::chunk_views;
use crate::decoder::slot_models;
use crate::decoder::SharedSlot;
use crate::emit::after;
use crate::emit::array_body;
use crate::emit::before;
use crate::emit::container_head;
use crate::emit::container_tail;
use crate::emit::encode_item;
use crate::emit::encode_items;
use crate::emit::encode_picked;
use crate::emit::entry_sort_keys;
use crate::emit::fresh_dict;
use crate::emit::fresh_list;
use crate::emit::map_body;
use crate::emit::namespace_prefix;
use crate::emit::set_bytes;
use crate::emit::shared_bytes;
use crate::emit::sort_key;
use crate::emit::sort_keys;
use crate::emit::tagged_bytes;
use crate::emit::unseen;
use crate::emit::EncodeState;
use crate::emit::Encoded;
use crate::emit::Keyed;
use crate::emit::Mark;
use crate::errors::EncodeError;
use crate::value::entry_models;
use crate::value::lemma_model_unfold;
use crate::value::models;
use crate::value::Value;
use crate::wire::head;
use crate::writer::ByteSink;
use crate::writer::Writer;
use crate::encoder::keyed_after;
use crate::encoder::lemma_unseen_update;
use crate::encoder::places;
use crate::encoder::wrote;
use crate::encoder::CBOREncoder;
use crate::encoder::DefaultHook;
use crate::encoder::ShareMark;
use crate::ordering::sort_order;
use crate::emit_lemmas::lemma_array_body;
use crate::emit_lemmas::lemma_encode_item;
use crate::emit_lemmas::lemma_entry_sort_keys;
use crate::emit_lemmas::lemma_fresh_dict;
use crate::emit_lemmas::lemma_fresh_list;
use crate::emit::map_entries;
use crate::emit_lemmas::lemma_map_body;
use crate::emit_lemmas::lemma_map_entries;
use crate::emit_lemmas::lemma_set_bytes;
use crate::emit_lemmas::lemma_shared_bytes;
use crate::emit::fresh_picked;
use crate::emit::shared_content;
use crate::emit::shared_first;
use crate::emit_lemmas::lemma_fresh_picked;
use crate::emit_lemmas::lemma_shared_content;
use crate::emit_lemmas::lemma_shared_first;
use crate::emit_lemmas::lemma_sort_key;
use crate::emit_lemmas::lemma_sort_keys;
use crate::emit_lemmas::lemma_tagged_bytes;
use crate::emit::at_fallback;
use crate::emit::keys_gave_way;
use crate::parse::Slot;
use crate::value::Item;
use vstd::prelude::*;

verus! {

/// What was written for a tag, from what was written for its content: the
/// head of the tag went first, the content was written with string
/// referencing on where the tag is 256, and the flag is as it was.
proof fn lemma_wrote_tagged<W: ByteSink, D: DefaultHook>(
    r: Result<(), EncodeError>,
    start: CBOREncoder<W, D>,
    inner: CBOREncoder<W, D>,
    reached: CBOREncoder<W, D>,
    end: CBOREncoder<W, D>,
    heap: Seq<Slot>,
    tag: u64,
    content: Item,
)
    requires
        inner.state() == (EncodeState {
            string_referencing: start.state().string_referencing || tag == 256,
            ..start.state()
        }),
        inner.writer.output() == start.writer.output() + head(6, tag as nat),
        wrote(r, inner, reached, encode_item(heap, content, inner.state())),
        end.state() == (EncodeState {
            string_referencing: start.state().string_referencing,
            ..reached.state()
        }),
        end.writer.output() == reached.writer.output(),
    ensures
        wrote(r, start, end, tagged_bytes(heap, tag, content, start.state())),
{
    lemma_tagged_bytes(heap, tag, content, start.state());
    match encode_item(heap, content, inner.state()) {
        Encoded::Done { bytes, state } => {
            assert(start.writer.output() + head(6, tag as nat) + bytes =~= start.writer.output()
                + (head(6, tag as nat) + bytes));
        },
        Encoded::Failed(f) => {},
    }
}

impl<W: ByteSink, D: DefaultHook> CBOREncoder<W, D> {
    /// Encodes one value. A value that the encoder has no encoding for goes
    /// to the fallback, where one is set, and what the fallback returns is
    /// written in its place.
    pub fn encode_value(&mut self, heap: &Vec<SharedSlot>, obj: &Value) -> (r: Result<
        (),
        EncodeError,
    >)
        requires
            old(self).writer.wf(),
        ensures
            final(self).writer.wf(),
            final(self).same_setup(old(self)),
            final(self).marks@.len() == old(self).marks@.len(),
            r is Ok ==> unseen(final(self).state().marks) <= unseen(old(self).state().marks),
            wrote(
                r,
                *old(self),
                *final(self),
                encode_item(slot_models(heap@), obj@, old(self).state()),
            ),
            r is Err && obj@ is Foreign ==> final(self).writer.output() == old(self).writer.output() && final(self).state() == old(self).state(),
        decreases unseen(old(self).state().marks), obj, 8nat, 0nat,
    {
        proof {
            lemma_model_unfold(*obj);
            lemma_encode_item(slot_models(heap@), obj@, self.state());
        }
        match obj {
            Value::Unsigned(_) | Value::Negative(_) | Value::BigUnsigned(_) | Value::BigNegative(
                _,
            ) => {
                self.encode_int(obj);
                Ok(())
            },
            Value::Bytes(_) => {
                self.encode_bytes(obj);
                Ok(())
            },
            Value::ByteArray(b) => {
                self.encode_bytearray(b);
                Ok(())
            },
            Value::Text(_) => {
                self.encode_string(obj);
                Ok(())
            },
            Value::Simple(v) => self.encode_simple_value(*v),
            Value::Bool(b) => {
                self.encode_bool(*b);
                Ok(())
            },
            Value::Null => {
                self.encode_none();
                Ok(())
            },
            Value::Undefined => {
                self.encode_undefined();
                Ok(())
            },
            Value::Break => {
                self.encode_break();
                Ok(())
            },
            Value::Float(bits) => {
                self.encode_float(*bits);
                Ok(())
            },
            Value::Array(items) => self.encode_array(heap, items),
            Value::Tuple(items) => self.encode_array(heap, items),
            Value::Dict(entries) => self.encode_map(heap, entries),
            Value::FrozenDict(entries) => self.encode_map(heap, entries),
            Value::MutableSet(items) => self.encode_set(heap, items),
            Value::FrozenSet(items) => self.encode_frozenset(heap, items),
            Value::Tag(tag, content) => self.encode_semantic(heap, *tag, content),
            Value::Shared(i) => self.encode_shared(heap, *i),
            Value::Domain(kind, content) => self.encode_domain(*kind, content),
            Value::Foreign(name) => {
                let outcome = match &mut self.default {
                    None => {
                        return Err(EncodeError::UnsupportedType { name: name.clone() });
                    },
                    Some(hook) => hook.call(name),
                };
                self.write_fallback(outcome)
            },
        }
    }

    /// Writes header, items and tail of an array.
    pub(crate) fn encode_array_body(&mut self, heap: &Vec<SharedSlot>, items: &Vec<Value>) -> (r: Result<
        (),
        EncodeError,
    >)
        requires
            old(self).writer.wf(),
        ensures
            final(self).writer.wf(),
            final(self).same_setup(old(self)),
            final(self).marks@.len() == old(self).marks@.len(),
            r is Ok ==> unseen(final(self).state().marks) <= unseen(old(self).state().marks),
            wrote(
                r,
                *old(self),
                *final(self),
                array_body(slot_models(heap@), models(items@), old(self).state()),
            ),
        decreases unseen(old(self).state().marks), items, 5nat, 0nat,
    {
        proof {
            lemma_array_body(slot_models(heap@), models(items@), self.state());
        }
        let ghost start = self.writer.output();
        let ghost st = self.state();
        let indefinite = self.indefinite_containers;
        self.encode_length(
            4,
            if indefinite {
                None
            } else {
                Some(items.len() as u64)
            },
        );
        match self.encode_all(heap, items) {
            Err(e) => {
                return Err(e);
            },
            Ok(_) => {},
        }
        if indefinite {
            self.put_byte(0xff);
        }
        proof {
            let inner = encode_items(slot_models(heap@), models(items@), st);
            let h = container_head(4, models(items@).len(), st);
            let t = container_tail(st);
            if inner is Done {
                assert(start + h + inner->bytes + t =~= start + (h + (inner->bytes + t)));
                if !indefinite {
                    assert(inner->bytes + t =~= inner->bytes);
                    assert(start + h + inner->bytes =~= start + (h + (inner->bytes + t)));
                }
            }
        }
        Ok(())
    }

    /// Writes an array: behind the namespace prefix and, where value
    /// sharing is on, a shareable marker.
    pub fn encode_array(&mut self, heap: &Vec<SharedSlot>, items: &Vec<Value>) -> (r: Result<
        (),
        EncodeError,
    >)
        requires
            old(self).writer.wf(),
        ensures
            final(self).writer.wf(),
            final(self).same_setup(old(self)),
            final(self).marks@.len() == old(self).marks@.len(),
            r is Ok ==> unseen(final(self).state().marks) <= unseen(old(self).state().marks),
            wrote(
                r,
                *old(self),
                *final(self),
                fresh_list(slot_models(heap@), models(items@), old(self).state()),
            ),
        decreases unseen(old(self).state().marks), items, 6nat, 0nat,
    {
        let ghost start = self.writer.output();
        let ghost st = self.state();
        let ghost h = slot_models(heap@);
        proof {
            lemma_fresh_list(h, models(items@), st);
        }
        let flag = match self.encode_container() {
            Err(e) => {
                return Err(e);
            },
            Ok(flag) => flag,
        };
        let ghost inner = self.state();
        let ghost prefix = namespace_prefix(st) + if st.value_sharing {
            head(6, 28)
        } else {
            Seq::<u8>::empty()
        };
        let ghost body = array_body(h, models(items@), inner);
        let result = self.encode_array_body(heap, items);
        let ghost reached = self.state();
        self.string_namespacing = flag;
        proof {
            match body {
                Encoded::Done { bytes, state } => {
                    assert(start + prefix + bytes =~= start + (prefix + bytes));
                    assert(self.state() == EncodeState {
                        string_namespacing: st.string_namespacing,
                        ..state
                    });
                },
                Encoded::Failed(e) => {},
            }
        }
        result
    }

    /// Opens a container that is met for the first and only time: writes
    /// the namespace prefix and, where value sharing is on, a shareable
    /// marker, and turns string namespacing off. Returns what the flag for
    /// string namespacing was.
    pub(crate) fn encode_container(&mut self) -> (r: Result<bool, EncodeError>)
        requires
            old(self).writer.wf(),
        ensures
            final(self).writer.wf(),
            final(self).same_setup(old(self)),
            final(self).marks@.len() == old(self).marks@.len(),
            final(self).marks == old(self).marks,
            r is Err <==> old(self).value_sharing && old(self).next_index == u64::MAX,
            r matches Err(e) ==> e == EncodeError::InvalidContent,
            r matches Ok(flag) ==> {
                &&& flag == old(self).string_namespacing
                &&& final(self).writer.output() == old(self).writer.output() + (namespace_prefix(
                    old(self).state(),
                ) + if old(self).value_sharing {
                    head(6, 28)
                } else {
                    Seq::empty()
                })
                &&& final(self).state() == (EncodeState {
                    string_namespacing: false,
                    next_index: if old(self).value_sharing {
                        (old(self).next_index + 1) as u64
                    } else {
                        old(self).next_index
                    },
                    ..old(self).state()
                })
            },
    {
        if self.value_sharing && self.next_index == u64::MAX {
            return Err(EncodeError::InvalidContent);
        }
        let ghost start = self.writer.output();
        let flag = self.string_namespacing;
        if flag {
            self.encode_length(6, Some(256));
        }
        self.string_namespacing = false;
        if self.value_sharing {
            self.encode_length(6, Some(28));
            self.next_index = self.next_index + 1;
        }
        proof {
            let a = namespace_prefix(old(self).state());
            let b = if old(self).value_sharing {
                head(6, 28)
            } else {
                Seq::<u8>::empty()
            };
            assert(start + a + b =~= start + (a + b));
            assert(start + a =~= start + (a + Seq::<u8>::empty()));
            assert(start + b =~= start + (Seq::<u8>::empty() + b));
            assert(start =~= start + (Seq::<u8>::empty() + Seq::<u8>::empty()));
        }
        Ok(flag)
    }

    /// Encodes a value into bytes of its own, leaving what was written so
    /// far alone.
    pub fn encode_to_bytes(&mut self, heap: &Vec<SharedSlot>, obj: &Value) -> (r: Result<
        Vec<u8>,
        EncodeError,
    >)
        requires
            old(self).writer.wf(),
        ensures
            final(self).writer.wf(),
            final(self).same_setup(old(self)),
            final(self).marks@.len() == old(self).marks@.len(),
            final(self).writer == old(self).writer,
            r is Ok ==> unseen(final(self).state().marks) <= unseen(old(self).state().marks),
            match (
                r,
                encode_item(slot_models(heap@), obj@, old(self).state()),
            ) {
                (Ok(out), Encoded::Done { bytes, state }) => out@ == bytes && final(self).state()
                    == state,
                (Err(e), Encoded::Failed(f)) => at_fallback(old(self).state(), f) || e@ == f,
                (Ok(_), Encoded::Failed(f)) => at_fallback(old(self).state(), f),
                _ => false,
            },
        decreases unseen(old(self).state().marks), obj, 9nat, 0nat,
    {
        let mut aside: Writer<W> = Writer::to_memory();
        std::mem::swap(&mut self.writer, &mut aside);
        let result = self.encode_value(heap, obj);
        std::mem::swap(&mut self.writer, &mut aside);
        match result {
            Err(e) => Err(e),
            Ok(_) => {
                proof {
                    assert(Seq::<u8>::empty() + aside.buffer@ =~= aside.buffer@);
                }
                Ok(aside.buffer)
            },
        }
    }

    /// The bytes by which a key or member is sorted in canonical mode: its
    /// encoding with string referencing off.
    pub fn encode_sortable_key(&mut self, heap: &Vec<SharedSlot>, key: &Value) -> (r: Result<
        Vec<u8>,
        EncodeError,
    >)
        requires
            old(self).writer.wf(),
        ensures
            final(self).writer.wf(),
            final(self).same_setup(old(self)),
            final(self).marks@.len() == old(self).marks@.len(),
            final(self).writer == old(self).writer,
            r is Ok ==> unseen(final(self).state().marks) <= unseen(old(self).state().marks),
            match (
                r,
                sort_key(slot_models(heap@), key@, old(self).state()),
            ) {
                (Ok(out), Encoded::Done { bytes, state }) => out@ == bytes && final(self).state()
                    == state,
                (Err(e), Encoded::Failed(f)) => at_fallback(old(self).state(), f) || e@ == f,
                (Ok(_), Encoded::Failed(f)) => at_fallback(old(self).state(), f),
                _ => false,
            },
        decreases unseen(old(self).state().marks), key, 10nat, 0nat,
    {
        proof {
            lemma_sort_key(slot_models(heap@), key@, self.state());
        }
        let flag = self.string_referencing;
        self.string_referencing = false;
        let result = self.encode_to_bytes(heap, key);
        self.string_referencing = flag;
        result
    }

    /// The bytes by which an entry of a map is sorted in canonical mode:
    /// the sort key of its key.
    pub fn encode_sortable_item(&mut self, heap: &Vec<SharedSlot>, item: &(Value, Value)) -> (r:
        Result<Vec<u8>, EncodeError>)
        requires
            old(self).writer.wf(),
        ensures
            final(self).writer.wf(),
            final(self).same_setup(old(self)),
            final(self).marks@.len() == old(self).marks@.len(),
            final(self).writer == old(self).writer,
            r is Ok ==> unseen(final(self).state().marks) <= unseen(old(self).state().marks),
            match (
                r,
                sort_key(slot_models(heap@), item.0@, old(self).state()),
            ) {
                (Ok(out), Encoded::Done { bytes, state }) => out@ == bytes && final(self).state()
                    == state,
                (Err(e), Encoded::Failed(f)) => at_fallback(old(self).state(), f) || e@ == f,
                (Ok(_), Encoded::Failed(f)) => at_fallback(old(self).state(), f),
                _ => false,
            },
        decreases unseen(old(self).state().marks), item, 11nat, 0nat,
    {
        self.encode_sortable_key(heap, &item.0)
    }

    /// The sort keys of the values, one after the other.
    pub(crate) fn sortable_keys(&mut self, heap: &Vec<SharedSlot>, items: &Vec<Value>) -> (r: Result<
        Vec<Vec<u8>>,
        EncodeError,
    >)
        requires
            old(self).writer.wf(),
        ensures
            final(self).writer.wf(),
            final(self).same_setup(old(self)),
            final(self).marks@.len() == old(self).marks@.len(),
            final(self).writer == old(self).writer,
            r is Ok ==> unseen(final(self).state().marks) <= unseen(old(self).state().marks),
            match (
                r,
                sort_keys(slot_models(heap@), models(items@), old(self).state()),
            ) {
                (Ok(out), Keyed::Done { keys, state }) => chunk_views(out@) == keys && final(self).state() == state,
                (Err(e), Keyed::Failed(f)) => at_fallback(old(self).state(), f) || e@ == f,
                (Ok(_), Keyed::Failed(f)) => at_fallback(old(self).state(), f),
                _ => false,
            },
        decreases unseen(old(self).state().marks), items, 4nat, 0nat,
    {
        let ghost all = models(items@);
        let ghost h = slot_models(heap@);
        let mut out: Vec<Vec<u8>> = Vec::new();
        let mut i: usize = 0;
        proof {
            assert(all.skip(0) =~= all);
            assert(chunk_views(out@) =~= Seq::<Seq<u8>>::empty());
        }
        while i < items.len()
            invariant
                i <= items.len(),
                all == models(items@),
                h == slot_models(heap@),
                self.writer.wf(),
                self.same_setup(old(self)),
                self.marks@.len() == old(self).marks@.len(),
                self.writer == old(self).writer,
                unseen(self.state().marks) <= unseen(old(self).state().marks),
                keys_gave_way(old(self).state(), sort_keys(h, all, old(self).state())) || keyed_after(
                    chunk_views(out@),
                    sort_keys(h, all.skip(i as int), self.state()),
                ) == sort_keys(h, all, old(self).state()),
            decreases items.len() - i,
        {
            let ghost here = self.state();
            let ghost rest = all.skip(i as int);
            proof {
                assert(rest[0] == items@[i as int]@);
                assert(rest.drop_first() =~= all.skip(i + 1));
                lemma_sort_keys(h, rest, here);
            }
            let key = match self.encode_sortable_key(heap, &items[i]) {
                Err(e) => {
                    return Err(e);
                },
                Ok(key) => key,
            };
            proof {
                let tail = sort_keys(h, all.skip(i + 1), self.state());
                if tail is Done {
                    assert(chunk_views(out@) + (seq![key@] + tail->keys) =~= chunk_views(
                        out@.push(key),
                    ) + tail->keys);
                }
            }
            out.push(key);
            i += 1;
        }
        proof {
            assert(chunk_views(out@) + Seq::<Seq<u8>>::empty() =~= chunk_views(out@));
            lemma_sort_keys(h, all.skip(i as int), self.state());
        }
        Ok(out)
    }

    /// The sort keys of the keys of the entries, one after the other.
    pub(crate) fn entry_sortable_keys(&mut self, heap: &Vec<SharedSlot>, entries: &Vec<(Value, Value)>) -> (r:
        Result<Vec<Vec<u8>>, EncodeError>)
        requires
            old(self).writer.wf(),
        ensures
            final(self).writer.wf(),
            final(self).same_setup(old(self)),
            final(self).marks@.len() == old(self).marks@.len(),
            final(self).writer == old(self).writer,
            r is Ok ==> unseen(final(self).state().marks) <= unseen(old(self).state().marks),
            match (
                r,
                entry_sort_keys(slot_models(heap@), entry_models(entries@), old(self).state()),
            ) {
                (Ok(out), Keyed::Done { keys, state }) => chunk_views(out@) == keys && final(self).state() == state,
                (Err(e), Keyed::Failed(f)) => at_fallback(old(self).state(), f) || e@ == f,
                (Ok(_), Keyed::Failed(f)) => at_fallback(old(self).state(), f),
                _ => false,
            },
        decreases unseen(old(self).state().marks), entries, 4nat, 0nat,
    {
        let ghost all = entry_models(entries@);
        let ghost h = slot_models(heap@);
        let mut out: Vec<Vec<u8>> = Vec::new();
        let mut i: usize = 0;
        proof {
            assert(all.skip(0) =~= all);
            assert(chunk_views(out@) =~= Seq::<Seq<u8>>::empty());
        }
        while i < entries.len()
            invariant
                i <= entries.len(),
                all == entry_models(entries@),
                h == slot_models(heap@),
                self.writer.wf(),
                self.same_setup(old(self)),
                self.marks@.len() == old(self).marks@.len(),
                self.writer == old(self).writer,
                unseen(self.state().marks) <= unseen(old(self).state().marks),
                keys_gave_way(old(self).state(), entry_sort_keys(h, all, old(self).state())) || keyed_after(
                    chunk_views(out@),
                    entry_sort_keys(h, all.skip(i as int), self.state()),
                ) == entry_sort_keys(h, all, old(self).state()),
            decreases entries.len() - i,
        {
            let ghost here = self.state();
            let ghost rest = all.skip(i as int);
            proof {
                assert(rest[0] == (entries@[i as int].0@, entries@[i as int].1@));
                assert(rest.drop_first() =~= all.skip(i + 1));
                lemma_entry_sort_keys(h, rest, here);
            }
            let key = match self.encode_sortable_item(heap, &entries[i]) {
                Err(e) => {
                    return Err(e);
                },
                Ok(key) => key,
            };
            proof {
                let tail = entry_sort_keys(h, all.skip(i + 1), self.state());
                if tail is Done {
                    assert(chunk_views(out@) + (seq![key@] + tail->keys) =~= chunk_views(
                        out@.push(key),
                    ) + tail->keys);
                }
            }
            out.push(key);
            i += 1;
        }
        proof {
            assert(chunk_views(out@) + Seq::<Seq<u8>>::empty() =~= chunk_views(out@));
            lemma_entry_sort_keys(h, all.skip(i as int), self.state());
        }
        Ok(out)
    }

    /// Writes the entries of a map, in canonical mode sorted by the sort
    /// keys of their keys.
    pub(crate) fn encode_map_entries(
        &mut self,
        heap: &Vec<SharedSlot>,
        entries: &Vec<(Value, Value)>,
    ) -> (r: Result<(), EncodeError>)
        requires
            old(self).writer.wf(),
        ensures
            final(self).writer.wf(),
            final(self).same_setup(old(self)),
            final(self).marks@.len() == old(self).marks@.len(),
            r is Ok ==> unseen(final(self).state().marks) <= unseen(old(self).state().marks),
            wrote(
                r,
                *old(self),
                *final(self),
                map_entries(slot_models(heap@), entry_models(entries@), old(self).state()),
            ),
        decreases unseen(old(self).state().marks), entries, 4nat, 1nat,
    {
        let ghost h = slot_models(heap@);
        let ghost st = self.state();
        proof {
            lemma_map_entries(h, entry_models(entries@), st);
        }
        if self.canonical {
            let keys = match self.entry_sortable_keys(heap, entries) {
                Err(e) => {
                    return Err(e);
                },
                Ok(keys) => keys,
            };
            let order = sort_order(&keys);
            self.encode_chosen_pairs(heap, entries, &order)
        } else {
            self.encode_pairs(heap, entries)
        }
    }

    /// Writes header, entries and tail of a map.
    pub(crate) fn encode_map_body(&mut self, heap: &Vec<SharedSlot>, entries: &Vec<(Value, Value)>)
        -> (r: Result<(), EncodeError>)
        requires
            old(self).writer.wf(),
        ensures
            final(self).writer.wf(),
            final(self).same_setup(old(self)),
            final(self).marks@.len() == old(self).marks@.len(),
            r is Ok ==> unseen(final(self).state().marks) <= unseen(old(self).state().marks),
            wrote(
                r,
                *old(self),
                *final(self),
                map_body(slot_models(heap@), entry_models(entries@), old(self).state()),
            ),
        decreases unseen(old(self).state().marks), entries, 5nat, 0nat,
    {
        let ghost start = self.writer.output();
        let ghost st = self.state();
        let ghost h = slot_models(heap@);
        proof {
            lemma_map_body(h, entry_models(entries@), st);
        }
        let indefinite = self.indefinite_containers;
        self.encode_length(
            5,
            if indefinite {
                None
            } else {
                Some(entries.len() as u64)
            },
        );
        let ghost inner = map_entries(h, entry_models(entries@), st);
        match self.encode_map_entries(heap, entries) {
            Err(e) => {
                return Err(e);
            },
            Ok(_) => {},
        }
        if indefinite {
            self.put_byte(0xff);
        }
        proof {
            let a = container_head(5, entry_models(entries@).len(), st);
            let t = container_tail(st);
            match inner {
                Encoded::Done { bytes, state } => {
                    assert(start + a + bytes + t =~= start + (a + (bytes + t)));
                    if !indefinite {
                        assert(bytes + t =~= bytes);
                        assert(start + a + bytes =~= start + (a + (bytes + t)));
                    }
                },
                Encoded::Failed(e) => {},
            }
        }
        Ok(())
    }

    /// Writes a map: behind the namespace prefix and, where value sharing
    /// is on, a shareable marker.
    pub fn encode_map(&mut self, heap: &Vec<SharedSlot>, entries: &Vec<(Value, Value)>) -> (r:
        Result<(), EncodeError>)
        requires
            old(self).writer.wf(),
        ensures
            final(self).writer.wf(),
            final(self).same_setup(old(self)),
            final(self).marks@.len() == old(self).marks@.len(),
            r is Ok ==> unseen(final(self).state().marks) <= unseen(old(self).state().marks),
            wrote(
                r,
                *old(self),
                *final(self),
                fresh_dict(slot_models(heap@), entry_models(entries@), old(self).state()),
            ),
        decreases unseen(old(self).state().marks), entries, 6nat, 0nat,
    {
        let ghost start = self.writer.output();
        let ghost st = self.state();
        let ghost h = slot_models(heap@);
        proof {
            lemma_fresh_dict(h, entry_models(entries@), st);
        }
        let flag = match self.encode_container() {
            Err(e) => {
                return Err(e);
            },
            Ok(flag) => flag,
        };
        let ghost inner = self.state();
        let ghost prefix = namespace_prefix(st) + if st.value_sharing {
            head(6, 28)
        } else {
            Seq::<u8>::empty()
        };
        let ghost body = map_body(h, entry_models(entries@), inner);
        let result = self.encode_map_body(heap, entries);
        let ghost reached = self.state();
        self.string_namespacing = flag;
        proof {
            match body {
                Encoded::Done { bytes, state } => {
                    assert(start + prefix + bytes =~= start + (prefix + bytes));
                    assert(self.state() == EncodeState {
                        string_namespacing: st.string_namespacing,
                        ..state
                    });
                },
                Encoded::Failed(e) => {},
            }
        }
        result
    }

    /// Writes the values in the order that `order` names as an array:
    /// behind the namespace prefix and, where value sharing is on, a
    /// shareable marker.
    pub(crate) fn encode_array_in_order(
        &mut self,
        heap: &Vec<SharedSlot>,
        items: &Vec<Value>,
        order: &Vec<usize>,
    ) -> (r: Result<(), EncodeError>)
        requires
            old(self).writer.wf(),
        ensures
            final(self).writer.wf(),
            final(self).same_setup(old(self)),
            final(self).marks@.len() == old(self).marks@.len(),
            r is Ok ==> unseen(final(self).state().marks) <= unseen(old(self).state().marks),
            wrote(
                r,
                *old(self),
                *final(self),
                fresh_picked(
                    slot_models(heap@),
                    models(items@),
                    places(order@),
                    old(self).state(),
                ),
            ),
        decreases unseen(old(self).state().marks), items, 6nat, 0nat,
    {
        let ghost start = self.writer.output();
        let ghost st = self.state();
        let ghost h = slot_models(heap@);
        proof {
            lemma_fresh_picked(h, models(items@), places(order@), st);
        }
        let flag = match self.encode_container() {
            Err(e) => {
                return Err(e);
            },
            Ok(flag) => flag,
        };
        let indefinite = self.indefinite_containers;
        self.encode_length(
            4,
            if indefinite {
                None
            } else {
                Some(items.len() as u64)
            },
        );
        let ghost inner = self.state();
        let ghost prefix = namespace_prefix(st) + if st.value_sharing {
            head(6, 28)
        } else {
            Seq::<u8>::empty()
        } + container_head(4, models(items@).len(), st);
        let ghost middle = self.writer.output();
        proof {
            assert(middle =~= start + prefix);
        }
        let ghost body = encode_picked(h, models(items@), places(order@), inner);
        match self.encode_chosen(heap, items, order) {
            Err(e) => {
                return Err(e);
            },
            Ok(_) => {},
        }
        if indefinite {
            self.put_byte(0xff);
        }
        self.string_namespacing = flag;
        proof {
            let t = container_tail(st);
            match body {
                Encoded::Done { bytes, state } => {
                    assert(start + prefix + bytes + t =~= start + (prefix + (bytes + t)));
                    if !indefinite {
                        assert(bytes + t =~= bytes);
                        assert(start + prefix + bytes =~= start + (prefix + (bytes + t)));
                    }
                    assert(self.state() == EncodeState {
                        string_namespacing: st.string_namespacing,
                        ..state
                    });
                },
                Encoded::Failed(e) => {},
            }
        }
        Ok(())
    }

    /// Writes a set: its members as an array behind tag 258, in canonical
    /// mode sorted by their sort keys.
    pub fn encode_set(&mut self, heap: &Vec<SharedSlot>, items: &Vec<Value>) -> (r: Result<
        (),
        EncodeError,
    >)
        requires
            old(self).writer.wf(),
        ensures
            final(self).writer.wf(),
            final(self).same_setup(old(self)),
            final(self).marks@.len() == old(self).marks@.len(),
            r is Ok ==> unseen(final(self).state().marks) <= unseen(old(self).state().marks),
            wrote(
                r,
                *old(self),
                *final(self),
                set_bytes(slot_models(heap@), models(items@), old(self).state()),
            ),
        decreases unseen(old(self).state().marks), items, 7nat, 0nat,
    {
        let ghost start = self.writer.output();
        let ghost st = self.state();
        let ghost h = slot_models(heap@);
        proof {
            lemma_set_bytes(h, models(items@), st);
        }
        if self.canonical {
            let keys = match self.sortable_keys(heap, items) {
                Err(e) => {
                    return Err(e);
                },
                Ok(keys) => keys,
            };
            let order = sort_order(&keys);
            let ghost keyed = self.state();
            self.encode_length(6, Some(258));
            let ghost body = fresh_picked(h, models(items@), places(order@), keyed);
            let result = self.encode_array_in_order(heap, items, &order);
            proof {
                match body {
                    Encoded::Done { bytes, state } => {
                        assert(start + head(6, 258) + bytes =~= start + (head(6, 258) + bytes));
                    },
                    Encoded::Failed(e) => {},
                }
            }
            result
        } else {
            self.encode_length(6, Some(258));
            let ghost body = fresh_list(h, models(items@), st);
            let result = self.encode_array(heap, items);
            proof {
                match body {
                    Encoded::Done { bytes, state } => {
                        assert(start + head(6, 258) + bytes =~= start + (head(6, 258) + bytes));
                    },
                    Encoded::Failed(e) => {},
                }
            }
            result
        }
    }

    /// Writes a set that cannot change, as [`Self::encode_set`] does.
    pub fn encode_frozenset(&mut self, heap: &Vec<SharedSlot>, items: &Vec<Value>) -> (r: Result<
        (),
        EncodeError,
    >)
        requires
            old(self).writer.wf(),
        ensures
            final(self).writer.wf(),
            final(self).same_setup(old(self)),
            final(self).marks@.len() == old(self).marks@.len(),
            r is Ok ==> unseen(final(self).state().marks) <= unseen(old(self).state().marks),
            wrote(
                r,
                *old(self),
                *final(self),
                set_bytes(slot_models(heap@), models(items@), old(self).state()),
            ),
        decreases unseen(old(self).state().marks), items, 7nat, 1nat,
    {
        self.encode_set(heap, items)
    }

    /// Writes a tag and its content. Tag 256 turns string referencing on
    /// for the content; afterwards it is as before.
    pub fn encode_semantic(&mut self, heap: &Vec<SharedSlot>, tag: u64, content: &Value) -> (r:
        Result<(), EncodeError>)
        requires
            old(self).writer.wf(),
        ensures
            final(self).writer.wf(),
            final(self).same_setup(old(self)),
            final(self).marks@.len() == old(self).marks@.len(),
            r is Ok ==> unseen(final(self).state().marks) <= unseen(old(self).state().marks),
            wrote(
                r,
                *old(self),
                *final(self),
                tagged_bytes(slot_models(heap@), tag, content@, old(self).state()),
            ),
        decreases unseen(old(self).state().marks), content, 9nat, 0nat,
    {
        let ghost h = slot_models(heap@);
        let flag = self.string_referencing;
        if tag == 256 {
            self.set_referencing(true);
        }
        self.encode_length(6, Some(tag));
        let ghost inner = *self;
        let result = self.encode_value(heap, content);
        let ghost reached = *self;
        self.set_referencing(flag);
        proof {
            lemma_wrote_tagged(result, *old(self), inner, reached, *self, h, tag, content@);
        }
        result
    }

    /// Sets the flag for string referencing.
    fn set_referencing(&mut self, flag: bool)
        ensures
            *final(self) == (CBOREncoder { string_referencing: flag, ..*old(self) }),
    {
        self.string_referencing = flag;
    }

    /// Opens a shared value that is met for the first time: writes the
    /// namespace prefix and, where value sharing is on, a shareable marker,
    /// marks the slot and turns string namespacing off. Returns what the
    /// flag for string namespacing was.
    pub(crate) fn begin_shared(&mut self, index: usize) -> (flag: bool)
        requires
            old(self).writer.wf(),
            index < old(self).marks@.len(),
            old(self).marks@[index as int] is Unseen,
            !(old(self).value_sharing && old(self).next_index == u64::MAX),
        ensures
            final(self).writer.wf(),
            final(self).same_setup(old(self)),
            final(self).marks@.len() == old(self).marks@.len(),
            flag == old(self).string_namespacing,
            final(self).writer.output() == old(self).writer.output() + (namespace_prefix(
                old(self).state(),
            ) + if old(self).value_sharing {
                head(6, 28)
            } else {
                Seq::empty()
            }),
            final(self).state() == (EncodeState {
                string_namespacing: false,
                marks: old(self).state().marks.update(
                    index as int,
                    if old(self).value_sharing {
                        Mark::Indexed(old(self).next_index)
                    } else {
                        Mark::Active
                    },
                ),
                next_index: if old(self).value_sharing {
                    (old(self).next_index + 1) as u64
                } else {
                    old(self).next_index
                },
                ..old(self).state()
            }),
            unseen(final(self).state().marks) < unseen(old(self).state().marks),
    {
        let ghost start = self.writer.output();
        let ghost st = self.state();
        let flag = self.string_namespacing;
        if flag {
            self.encode_length(6, Some(256));
        }
        self.string_namespacing = false;
        if self.value_sharing {
            self.encode_length(6, Some(28));
            self.marks.set(index, ShareMark::Indexed(self.next_index));
            self.next_index = self.next_index + 1;
        } else {
            self.marks.set(index, ShareMark::Active);
        }
        proof {
            let mark = if st.value_sharing {
                Mark::Indexed(st.next_index)
            } else {
                Mark::Active
            };
            assert(self.state().marks =~= st.marks.update(index as int, mark));
            lemma_unseen_update(st.marks, index as int, mark);
            let a = namespace_prefix(st);
            let b = if st.value_sharing {
                head(6, 28)
            } else {
                Seq::<u8>::empty()
            };
            assert(start + a + b =~= start + (a + b));
            assert(start + a =~= start + (a + Seq::<u8>::empty()));
            assert(start + b =~= start + (Seq::<u8>::empty() + b));
            assert(start =~= start + (Seq::<u8>::empty() + Seq::<u8>::empty()));
        }
        flag
    }

    /// Closes a shared value: string namespacing is back to `flag`, and
    /// with value sharing off the slot counts as not met again.
    pub(crate) fn end_shared(&mut self, index: usize, flag: bool, sharing: bool)
        requires
            old(self).writer.wf(),
        ensures
            final(self).writer.wf(),
            final(self).same_setup(old(self)),
            final(self).marks@.len() == old(self).marks@.len(),
            final(self).writer == old(self).writer,
            final(self).state() == (EncodeState {
                string_namespacing: flag,
                marks: if sharing || index >= old(self).state().marks.len() {
                    old(self).state().marks
                } else {
                    old(self).state().marks.update(index as int, Mark::Unseen)
                },
                ..old(self).state()
            }),
            unseen(final(self).state().marks) <= unseen(old(self).state().marks) + 1,
            sharing ==> final(self).marks == old(self).marks,
    {
        let ghost reached = self.state();
        self.string_namespacing = flag;
        if !sharing && index < self.marks.len() {
            self.marks.set(index, ShareMark::Unseen);
            proof {
                assert(self.state().marks =~= reached.marks.update(index as int, Mark::Unseen));
                lemma_unseen_update(reached.marks, index as int, Mark::Unseen);
            }
        }
    }

    /// Writes the value of a slot of the table of shared values that is
    /// met for the first time. With value sharing off the slot is marked
    /// as being encoded for that time only, whether the value could be
    /// written or not.
    pub(crate) fn encode_shared_first(
        &mut self,
        heap: &Vec<SharedSlot>,
        index: usize,
        content: &Value,
    ) -> (r: Result<(), EncodeError>)
        requires
            old(self).writer.wf(),
            index < old(self).marks@.len(),
            old(self).marks@[index as int] is Unseen,
        ensures
            final(self).writer.wf(),
            final(self).same_setup(old(self)),
            final(self).marks@.len() == old(self).marks@.len(),
            r is Ok ==> unseen(final(self).state().marks) <= unseen(old(self).state().marks),
            wrote(
                r,
                *old(self),
                *final(self),
                shared_first(slot_models(heap@), index as nat, content@, old(self).state()),
            ),
            r is Err && !old(self).value_sharing ==> final(self).state().marks[index as int]
                is Unseen,
        decreases unseen(old(self).state().marks), Value::Shared(index), 0nat, 0nat,
    {
        let ghost start = self.writer.output();
        let ghost st = self.state();
        let ghost h = slot_models(heap@);
        proof {
            lemma_shared_first(h, index as nat, content@, st);
        }
        if self.value_sharing && self.next_index == u64::MAX {
            return Err(EncodeError::InvalidContent);
        }
        let sharing = self.value_sharing;
        let flag = self.begin_shared(index);
        let ghost inner = self.state();
        let ghost prefix = namespace_prefix(st) + if st.value_sharing {
            head(6, 28)
        } else {
            Seq::<u8>::empty()
        };
        let ghost body = shared_content(h, content@, inner);
        let result = self.encode_shared_content(heap, content);
        self.end_shared(index, flag, sharing);
        proof {
            match body {
                Encoded::Done { bytes, state } => {
                    assert(start + prefix + bytes =~= start + (prefix + bytes));
                },
                Encoded::Failed(e) => {},
            }
        }
        result
    }

    /// Writes the content of a slot of the table of shared values: an
    /// array or a map without what opens a container, and any other value
    /// as it is.
    pub(crate) fn encode_shared_content(&mut self, heap: &Vec<SharedSlot>, content: &Value) -> (r:
        Result<(), EncodeError>)
        requires
            old(self).writer.wf(),
        ensures
            final(self).writer.wf(),
            final(self).same_setup(old(self)),
            final(self).marks@.len() == old(self).marks@.len(),
            r is Ok ==> unseen(final(self).state().marks) <= unseen(old(self).state().marks),
            wrote(
                r,
                *old(self),
                *final(self),
                shared_content(slot_models(heap@), content@, old(self).state()),
            ),
        decreases unseen(old(self).state().marks), content, 12nat, 0nat,
    {
        proof {
            lemma_model_unfold(*content);
            lemma_shared_content(slot_models(heap@), content@, self.state());
        }
        match content {
            Value::Array(items) => self.encode_array_body(heap, items),
            Value::Tuple(items) => self.encode_array_body(heap, items),
            Value::Dict(entries) => self.encode_map_body(heap, entries),
            Value::FrozenDict(entries) => self.encode_map_body(heap, entries),
            _ => self.encode_value(heap, content),
        }
    }

    /// Writes the value in slot `index` of the table of shared values, met
    /// through a reference.
    ///
    /// A slot met before with value sharing on is written as tag 29 with
    /// its index, behind the namespace prefix; a slot that is being encoded
    /// is a cycle and fails; a slot not met so far is written in full,
    /// behind a shareable marker if value sharing is on, and is marked as
    /// being encoded for that time if it is off. When the value cannot be
    /// written, the slot counts as not met again; the failure for a cycle
    /// writes nothing and changes nothing.
    pub fn encode_shared(&mut self, heap: &Vec<SharedSlot>, index: usize) -> (r: Result<
        (),
        EncodeError,
    >)
        requires
            old(self).writer.wf(),
        ensures
            final(self).writer.wf(),
            final(self).same_setup(old(self)),
            final(self).marks@.len() == old(self).marks@.len(),
            r is Ok ==> unseen(final(self).state().marks) <= unseen(old(self).state().marks),
            wrote(
                r,
                *old(self),
                *final(self),
                shared_bytes(slot_models(heap@), index as nat, old(self).state()),
            ),
            r is Err && !old(self).value_sharing && index < old(self).marks@.len() && old(self).state().marks[index as int] is Unseen ==> final(self).state().marks[index as int]
                is Unseen,
            index < old(self).marks@.len() && old(self).state().marks[index as int] is Active
                ==> r is Err && final(self).state() == old(self).state() && final(self).writer.output() == old(self).writer.output(),
        decreases unseen(old(self).state().marks), Value::Shared(index), 1nat, 0nat,
    {
        let ghost start = self.writer.output();
        let ghost st = self.state();
        proof {
            lemma_shared_bytes(slot_models(heap@), index as nat, st);
        }
        if index >= heap.len() || index >= self.marks.len() {
            return Err(EncodeError::DanglingReference { index });
        }
        let content = match &heap[index] {
            SharedSlot::Filled(v) => v,
            _ => {
                return Err(EncodeError::DanglingReference { index });
            },
        };
        match self.marks[index] {
            ShareMark::Active => Err(EncodeError::CyclicStructure),
            ShareMark::Indexed(n) => {
                if self.string_namespacing {
                    self.encode_length(6, Some(256));
                }
                self.encode_length(6, Some(29));
                self.encode_length(0, Some(n));
                proof {
                    let a = namespace_prefix(st);
                    assert(start + a + head(6, 29) + head(0, n as nat) =~= start + (a + head(6, 29)
                        + head(0, n as nat)));
                    assert(start + head(6, 29) + head(0, n as nat) =~= start + (Seq::<u8>::empty()
                        + head(6, 29) + head(0, n as nat)));
                }
                Ok(())
            },
            ShareMark::Unseen => self.encode_shared_first(heap, index, content),
        }
    }

}

} // verus!
