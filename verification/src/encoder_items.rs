//! The encoder on sequences: members of arrays and entries of maps, in
//! their own order or in a chosen one.

use crate::decoder::slot_models;
use crate::decoder::SharedSlot;
use crate::emit::after;
use crate::emit::before;
use crate::emit::encode_entries;
use crate::emit::encode_entry;
use crate::emit::encode_item;
use crate::emit::encode_items;
use crate::emit::encode_picked;
use crate::emit::encode_picked_entries;
use crate::emit::unseen;
use crate::errors::EncodeError;
use crate::value::entry_models;
use crate::value::models;
use crate::value::Value;
use crate::writer::ByteSink;
use crate::encoder::places;
use crate::encoder::wrote;
use crate::encoder::CBOREncoder;
use crate::encoder::DefaultHook;
use crate::emit_lemmas::lemma_encode_entries;
use crate::emit_lemmas::lemma_encode_entry;
use crate::emit_lemmas::lemma_encode_items;
use crate::emit_lemmas::lemma_encode_picked;
use crate::emit_lemmas::lemma_encode_picked_entries;
use crate::emit::gave_way;
use vstd::prelude::*;

verus! {

impl<W: ByteSink, D: DefaultHook> CBOREncoder<W, D> {
    /// Encodes the values one after the other.
    pub(crate) fn encode_all(&mut self, heap: &Vec<SharedSlot>, items: &Vec<Value>) -> (r: Result<
        (),
        EncodeError,
    >)
        requires
            old(self).writer.wf(),
        ensures
            final(self).writer.wf(),
            final(self).same_setup(old(self)),
            final(self).marks@.len() == old(self).marks@.len(),
            r is Ok ==> unseen(final(self).state().marks) <= unseen(old(self).state().marks),
            wrote(
                r,
                *old(self),
                *final(self),
                encode_items(slot_models(heap@), models(items@), old(self).state()),
            ),
        decreases unseen(old(self).state().marks), items, 4nat, 0nat,
    {
        let ghost all = models(items@);
        let ghost h = slot_models(heap@);
        let ghost start = self.writer.output();
        let mut i: usize = 0;
        proof {
            assert(all.skip(0) =~= all);
            assert(start + Seq::<u8>::empty() =~= start);
        }
        let ghost done: Seq<u8> = Seq::empty();
        while i < items.len()
            invariant
                i <= items.len(),
                all == models(items@),
                h == slot_models(heap@),
                start == old(self).writer.output(),
                self.writer.wf(),
                self.same_setup(old(self)),
                self.marks@.len() == old(self).marks@.len(),
                unseen(self.state().marks) <= unseen(old(self).state().marks),
                gave_way(old(self).state(), encode_items(h, all, old(self).state())) || self.writer.output() == start + done,
                gave_way(old(self).state(), encode_items(h, all, old(self).state())) || after(
                    done,
                    encode_items(h, all.skip(i as int), self.state()),
                ) == encode_items(h, all, old(self).state()),
            decreases items.len() - i,
        {
            let ghost here = self.state();
            let ghost rest = all.skip(i as int);
            proof {
                assert(rest[0] == items@[i as int]@);
                assert(rest.drop_first() =~= all.skip(i + 1));
                lemma_encode_items(h, rest, here);
            }
            match self.encode_value(heap, &items[i]) {
                Err(e) => {
                    return Err(e);
                },
                Ok(_) => {},
            }
            proof {
                let r = encode_item(h, rest[0], here);
                assert(start + done + r->bytes =~= start + (done + r->bytes));
                let tail = encode_items(h, all.skip(i + 1), self.state());
                if tail is Done {
                    assert(done + (r->bytes + tail->bytes) =~= (done + r->bytes) + tail->bytes);
                }
                done = done + r->bytes;
            }
            i += 1;
        }
        proof {
            assert(done + Seq::<u8>::empty() =~= done);
            lemma_encode_items(h, all.skip(i as int), self.state());
        }
        Ok(())
    }

    /// Encodes the values at the places that `order` names, one after the
    /// other.
    pub(crate) fn encode_chosen(&mut self, heap: &Vec<SharedSlot>, items: &Vec<Value>, order: &Vec<usize>)
        -> (r: Result<(), EncodeError>)
        requires
            old(self).writer.wf(),
        ensures
            final(self).writer.wf(),
            final(self).same_setup(old(self)),
            final(self).marks@.len() == old(self).marks@.len(),
            r is Ok ==> unseen(final(self).state().marks) <= unseen(old(self).state().marks),
            wrote(
                r,
                *old(self),
                *final(self),
                encode_picked(
                    slot_models(heap@),
                    models(items@),
                    places(order@),
                    old(self).state(),
                ),
            ),
        decreases unseen(old(self).state().marks), items, 0nat, order@.len(),
    {
        let ghost all = models(items@);
        let ghost h = slot_models(heap@);
        let ghost start = self.writer.output();
        let ghost picks = places(order@);
        let mut i: usize = 0;
        proof {
            assert(picks.skip(0) =~= picks);
            assert(start + Seq::<u8>::empty() =~= start);
        }
        let ghost done: Seq<u8> = Seq::empty();
        while i < order.len()
            invariant
                i <= order.len(),
                all == models(items@),
                h == slot_models(heap@),
                picks == places(order@),
                start == old(self).writer.output(),
                self.writer.wf(),
                self.same_setup(old(self)),
                self.marks@.len() == old(self).marks@.len(),
                unseen(self.state().marks) <= unseen(old(self).state().marks),
                gave_way(old(self).state(), encode_picked(h, all, picks, old(self).state())) || self.writer.output() == start + done,
                gave_way(old(self).state(), encode_picked(h, all, picks, old(self).state())) || after(
                    done,
                    encode_picked(h, all, picks.skip(i as int), self.state()),
                ) == encode_picked(h, all, picks, old(self).state()),
            decreases order.len() - i,
        {
            let ghost here = self.state();
            let ghost rest = picks.skip(i as int);
            proof {
                assert(rest[0] == order@[i as int] as int);
                assert(rest.drop_first() =~= picks.skip(i + 1));
                lemma_encode_picked(h, all, rest, here);
            }
            let k = order[i];
            if k >= items.len() {
                return Err(EncodeError::InvalidContent);
            }
            match self.encode_value(heap, &items[k]) {
                Err(e) => {
                    return Err(e);
                },
                Ok(_) => {},
            }
            proof {
                let r = encode_item(h, all[k as int], here);
                assert(start + done + r->bytes =~= start + (done + r->bytes));
                let tail = encode_picked(h, all, picks.skip(i + 1), self.state());
                if tail is Done {
                    assert(done + (r->bytes + tail->bytes) =~= (done + r->bytes) + tail->bytes);
                }
                done = done + r->bytes;
            }
            i += 1;
        }
        proof {
            assert(done + Seq::<u8>::empty() =~= done);
            lemma_encode_picked(h, all, picks.skip(i as int), self.state());
        }
        Ok(())
    }

    /// Encodes one key and its value.
    pub(crate) fn encode_pair(&mut self, heap: &Vec<SharedSlot>, entry: &(Value, Value)) -> (r: Result<
        (),
        EncodeError,
    >)
        requires
            old(self).writer.wf(),
        ensures
            final(self).writer.wf(),
            final(self).same_setup(old(self)),
            final(self).marks@.len() == old(self).marks@.len(),
            r is Ok ==> unseen(final(self).state().marks) <= unseen(old(self).state().marks),
            wrote(
                r,
                *old(self),
                *final(self),
                encode_entry(slot_models(heap@), (entry.0@, entry.1@), old(self).state()),
            ),
        decreases unseen(old(self).state().marks), entry, 3nat, 0nat,
    {
        let ghost start = self.writer.output();
        proof {
            lemma_encode_entry(slot_models(heap@), (entry.0@, entry.1@), self.state());
        }
        match self.encode_value(heap, &entry.0) {
            Err(e) => {
                return Err(e);
            },
            Ok(_) => {},
        }
        let ghost middle = self.writer.output();
        match self.encode_value(heap, &entry.1) {
            Err(e) => {
                return Err(e);
            },
            Ok(_) => {},
        }
        proof {
            let a = encode_item(slot_models(heap@), entry.0@, old(self).state());
            let b = encode_item(slot_models(heap@), entry.1@, a->state);
            assert(start + a->bytes + b->bytes =~= start + (a->bytes + b->bytes));
        }
        Ok(())
    }

    /// Encodes the entries one after the other, each key before its value.
    pub(crate) fn encode_pairs(&mut self, heap: &Vec<SharedSlot>, entries: &Vec<(Value, Value)>) -> (r:
        Result<(), EncodeError>)
        requires
            old(self).writer.wf(),
        ensures
            final(self).writer.wf(),
            final(self).same_setup(old(self)),
            final(self).marks@.len() == old(self).marks@.len(),
            r is Ok ==> unseen(final(self).state().marks) <= unseen(old(self).state().marks),
            wrote(
                r,
                *old(self),
                *final(self),
                encode_entries(slot_models(heap@), entry_models(entries@), old(self).state()),
            ),
        decreases unseen(old(self).state().marks), entries, 4nat, 0nat,
    {
        let ghost all = entry_models(entries@);
        let ghost h = slot_models(heap@);
        let ghost start = self.writer.output();
        let mut i: usize = 0;
        proof {
            assert(all.skip(0) =~= all);
            assert(start + Seq::<u8>::empty() =~= start);
        }
        let ghost done: Seq<u8> = Seq::empty();
        while i < entries.len()
            invariant
                i <= entries.len(),
                all == entry_models(entries@),
                h == slot_models(heap@),
                start == old(self).writer.output(),
                self.writer.wf(),
                self.same_setup(old(self)),
                self.marks@.len() == old(self).marks@.len(),
                unseen(self.state().marks) <= unseen(old(self).state().marks),
                gave_way(old(self).state(), encode_entries(h, all, old(self).state())) || self.writer.output() == start + done,
                gave_way(old(self).state(), encode_entries(h, all, old(self).state())) || after(
                    done,
                    encode_entries(h, all.skip(i as int), self.state()),
                ) == encode_entries(h, all, old(self).state()),
            decreases entries.len() - i,
        {
            let ghost here = self.state();
            let ghost rest = all.skip(i as int);
            proof {
                assert(rest[0] == (entries@[i as int].0@, entries@[i as int].1@));
                assert(rest.drop_first() =~= all.skip(i + 1));
                lemma_encode_entries(h, rest, here);
            }
            match self.encode_pair(heap, &entries[i]) {
                Err(e) => {
                    return Err(e);
                },
                Ok(_) => {},
            }
            proof {
                let r = encode_entry(h, rest[0], here);
                assert(start + done + r->bytes =~= start + (done + r->bytes));
                let tail = encode_entries(h, all.skip(i + 1), self.state());
                if tail is Done {
                    assert(done + (r->bytes + tail->bytes) =~= (done + r->bytes) + tail->bytes);
                }
                done = done + r->bytes;
            }
            i += 1;
        }
        proof {
            assert(done + Seq::<u8>::empty() =~= done);
            lemma_encode_entries(h, all.skip(i as int), self.state());
        }
        Ok(())
    }

    /// Encodes the entries at the places that `order` names, one after the
    /// other.
    pub(crate) fn encode_chosen_pairs(
        &mut self,
        heap: &Vec<SharedSlot>,
        entries: &Vec<(Value, Value)>,
        order: &Vec<usize>,
    ) -> (r: Result<(), EncodeError>)
        requires
            old(self).writer.wf(),
        ensures
            final(self).writer.wf(),
            final(self).same_setup(old(self)),
            final(self).marks@.len() == old(self).marks@.len(),
            r is Ok ==> unseen(final(self).state().marks) <= unseen(old(self).state().marks),
            wrote(
                r,
                *old(self),
                *final(self),
                encode_picked_entries(
                    slot_models(heap@),
                    entry_models(entries@),
                    places(order@),
                    old(self).state(),
                ),
            ),
        decreases unseen(old(self).state().marks), entries, 0nat, order@.len(),
    {
        let ghost all = entry_models(entries@);
        let ghost h = slot_models(heap@);
        let ghost start = self.writer.output();
        let ghost picks = places(order@);
        let mut i: usize = 0;
        proof {
            assert(picks.skip(0) =~= picks);
            assert(start + Seq::<u8>::empty() =~= start);
        }
        let ghost done: Seq<u8> = Seq::empty();
        while i < order.len()
            invariant
                i <= order.len(),
                all == entry_models(entries@),
                h == slot_models(heap@),
                picks == places(order@),
                start == old(self).writer.output(),
                self.writer.wf(),
                self.same_setup(old(self)),
                self.marks@.len() == old(self).marks@.len(),
                unseen(self.state().marks) <= unseen(old(self).state().marks),
                gave_way(old(self).state(), encode_picked_entries(h, all, picks, old(self).state())) || self.writer.output() == start + done,
                gave_way(old(self).state(), encode_picked_entries(h, all, picks, old(self).state())) || after(
                    done,
                    encode_picked_entries(h, all, picks.skip(i as int), self.state()),
                ) == encode_picked_entries(h, all, picks, old(self).state()),
            decreases order.len() - i,
        {
            let ghost here = self.state();
            let ghost rest = picks.skip(i as int);
            proof {
                assert(rest[0] == order@[i as int] as int);
                assert(rest.drop_first() =~= picks.skip(i + 1));
                lemma_encode_picked_entries(h, all, rest, here);
            }
            let k = order[i];
            if k >= entries.len() {
                return Err(EncodeError::InvalidContent);
            }
            match self.encode_pair(heap, &entries[k]) {
                Err(e) => {
                    return Err(e);
                },
                Ok(_) => {},
            }
            proof {
                let r = encode_entry(h, all[k as int], here);
                assert(start + done + r->bytes =~= start + (done + r->bytes));
                let tail = encode_picked_entries(h, all, picks.skip(i + 1), self.state());
                if tail is Done {
                    assert(done + (r->bytes + tail->bytes) =~= (done + r->bytes) + tail->bytes);
                }
                done = done + r->bytes;
            }
            i += 1;
        }
        proof {
            assert(done + Seq::<u8>::empty() =~= done);
            lemma_encode_picked_entries(h, all, picks.skip(i as int), self.state());
        }
        Ok(())
    }
}

} // verus!
