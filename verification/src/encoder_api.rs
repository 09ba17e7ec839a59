//! The encoder at the top level: documents.

use crate::decoder::slot_models;
use crate::decoder::SharedSlot;
use crate::emit::before;
use crate::emit::encode_item;
use crate::emit::EncodeState;
use crate::emit::Mark;
use crate::errors::EncodeError;
use crate::value::Item;
use crate::value::Value;
use crate::writer::ByteSink;
use crate::encoder::wrote;
use crate::encoder::CBOREncoder;
use crate::encoder::DefaultHook;
use crate::encoder::ShareMark;
use crate::emit::encode_document;
use crate::emit::fresh_marks;
use crate::emit::Encoded;
use vstd::prelude::*;

verus! {

impl<W: ByteSink, D: DefaultHook> CBOREncoder<W, D> {
    /// Begins a document: no entry of the table of shared values counts as
    /// met.
    fn begin_document(&mut self, count: usize)
        requires
            old(self).writer.wf(),
        ensures
            final(self).writer.wf(),
            final(self).same_setup(old(self)),
            final(self).writer == old(self).writer,
            final(self).state() == (EncodeState {
                marks: fresh_marks(count as nat),
                ..old(self).state()
            }),
    {
        let mut marks: Vec<ShareMark> = Vec::new();
        let mut i: usize = 0;
        while i < count
            invariant
                i <= count,
                marks@.len() == i,
                forall|j: int| 0 <= j < i ==> marks@[j] is Unseen,
            decreases count - i,
        {
            marks.push(ShareMark::Unseen);
            i += 1;
        }
        self.marks = marks;
        proof {
            assert(self.state().marks =~= fresh_marks(count as nat));
        }
    }

    /// Ends a document: the buffer goes to the sink, and what the encoder
    /// remembered of shared values and strings is forgotten.
    fn end_document(&mut self)
        requires
            old(self).writer.wf(),
        ensures
            final(self).writer.wf(),
            final(self).same_setup(old(self)),
            final(self).writer.output() == old(self).writer.output(),
            final(self).writer.sink is Some ==> final(self).writer.buffer@.len() == 0,
            final(self).writer.sink is None ==> final(self).writer.buffer == old(self).writer.buffer,
            final(self).state() == (EncodeState {
                marks: Seq::empty(),
                next_index: 0,
                strings: Seq::empty(),
                ..old(self).state()
            }),
    {
        self.flush();
        self.marks = Vec::new();
        self.strings = Vec::new();
        self.next_index = 0;
        proof {
            assert(self.state().marks =~= Seq::<Mark>::empty());
            assert(self.state().strings =~= Seq::<Item>::empty());
        }
    }

    /// Sets the depth of nested calls of `encode`.
    fn set_depth(&mut self, depth: usize)
        ensures
            *final(self) == (CBOREncoder { encode_depth: depth, ..*old(self) }),
    {
        self.encode_depth = depth;
    }

    /// Gives a document up: what the encoder remembered of shared values
    /// and strings is forgotten, and the flags for string referencing and
    /// string namespacing are what they were when the document began.
    /// Nothing is handed to the sink.
    fn abandon_document(&mut self, referencing: bool, namespacing: bool)
        requires
            old(self).writer.wf(),
        ensures
            final(self).writer.wf(),
            final(self).same_setup(old(self)),
            final(self).writer == old(self).writer,
            final(self).state() == (EncodeState {
                marks: Seq::empty(),
                next_index: 0,
                strings: Seq::empty(),
                string_referencing: referencing,
                string_namespacing: namespacing,
                ..old(self).state()
            }),
    {
        self.marks = Vec::new();
        self.strings = Vec::new();
        self.next_index = 0;
        self.string_referencing = referencing;
        self.string_namespacing = namespacing;
        proof {
            assert(self.state().marks =~= Seq::<Mark>::empty());
            assert(self.state().strings =~= Seq::<Item>::empty());
        }
    }

    /// Encodes one value and, at the top level, finishes the document.
    ///
    /// At the top level no entry of the table of shared values counts as
    /// met before; when the value is written, the buffer is handed to the
    /// sink and what the encoder remembered of shared values and strings is
    /// forgotten. Where the value cannot be written, that is forgotten
    /// too, and the options are what they were; what was written of the
    /// value stays. Inside another `encode` the value is written as it is.
    pub fn encode(&mut self, heap: &Vec<SharedSlot>, obj: &Value) -> (r: Result<(), EncodeError>)
        requires
            old(self).writer.wf(),
        ensures
            final(self).writer.wf(),
            final(self).same_setup(old(self)),
            wrote(
                r,
                *old(self),
                *final(self),
                if old(self).encode_depth == 0 {
                    encode_document(slot_models(heap@), obj@, old(self).state())
                } else {
                    encode_item(slot_models(heap@), obj@, old(self).state())
                },
            ),
            r is Ok && old(self).encode_depth == 0 && final(self).writer.sink is Some ==> final(self).writer.buffer@.len() == 0,
            r is Ok && old(self).encode_depth == 0 && final(self).writer.sink is None ==> (
            encode_document(slot_models(heap@), obj@, old(self).state()) matches Encoded::Done {
                bytes,
                ..
            } ==> final(self).writer.buffer@ == old(self).writer.buffer@ + bytes),
            r is Err && old(self).encode_depth == 0 ==> final(self).state() == (EncodeState {
                marks: Seq::empty(),
                next_index: 0,
                strings: Seq::empty(),
                ..old(self).state()
            }),
    {
        let depth = self.encode_depth;
        let referencing = self.string_referencing;
        let namespacing = self.string_namespacing;
        let ghost h = slot_models(heap@);
        if depth == 0 {
            self.begin_document(heap.len());
        }
        let ghost begun = self.state();
        let ghost body = encode_item(h, obj@, begun);
        if depth < usize::MAX {
            self.set_depth(depth + 1);
        }
        let result = self.encode_value(heap, obj);
        self.set_depth(depth);
        match result {
            Err(e) => {
                if depth == 0 {
                    self.abandon_document(referencing, namespacing);
                }
                Err(e)
            },
            Ok(_) => {
                if depth == 0 {
                    self.end_document();
                }
                Ok(())
            },
        }
    }
}

} // verus!
