//! The decoder: reads one item at a time from a buffered reader and builds
//! its value, keeping the table of shared values and the namespace of
//! string references on the way.

use crate::errors::DecodeError;
use crate::floats::half_bits_to_double;
use crate::floats::single_bits_to_double;
use crate::collections::insert_entry;
use crate::parse::at_hook;
use crate::parse::initial_state;
use crate::parse::with_hooks;
use crate::parse::claim;
use crate::parse::stopped;
use crate::parse::parse_array;
use crate::parse::parse_body;
use crate::parse::parse_entries;
use crate::parse::parse_entries_to_break;
use crate::parse::parse_entry;
use crate::parse::parse_items;
use crate::parse::parse_items_to_break;
use crate::parse::parse_major;
use crate::parse::parse_map;
use crate::parse::parse_tagged;
use crate::parse::reference_index;
use crate::parse::shared_value;
use crate::parse::string_reference;
use crate::tags::interpret;
use crate::tags::interprets;
use crate::tags::reads_in_any_context;
use crate::value::entry_models;
use crate::value::lemma_model_unfold;
use crate::parse::end_of_stream;
use crate::parse::joined;
use crate::parse::joined_text;
use crate::parse::offer;
use crate::parse::parse_byte_string;
use crate::parse::parse_text_string;
use crate::parse::take_chunks;
use crate::parse::take_payload;
use crate::parse::parse_integer;
use crate::parse::parse_item;
use crate::parse::parse_special;
use crate::parse::take_bytes;
use crate::parse::take_finite_length;
use crate::parse::take_length;
use crate::parse::take_number;
use crate::parse::DecodeState;
use crate::parse::Parsed;
use crate::parse::Slot;
use crate::parse::Taken;
use crate::parse_lemmas::lemma_parse_array;
use crate::parse_lemmas::lemma_parse_body;
use crate::parse_lemmas::lemma_parse_entries;
use crate::parse_lemmas::lemma_parse_entries_to_break;
use crate::parse_lemmas::lemma_parse_entry;
use crate::parse_lemmas::lemma_parse_item;
use crate::parse_lemmas::lemma_parse_items;
use crate::parse_lemmas::lemma_parse_items_to_break;
use crate::parse_lemmas::lemma_parse_major;
use crate::parse_lemmas::lemma_parse_map;
use crate::parse_lemmas::lemma_parse_tagged;
use crate::reader::ByteSource;
use crate::reader::Reader;
use crate::text::decode_text;
use crate::text::text_of;
use crate::text::StrErrors;
use crate::value::copy_bytes;
use crate::value::lemma_models_push;
use crate::value::Item;
use crate::value::models;
use crate::value::Value;
use crate::wire::be_to_u64;
use crate::wire::split_initial_byte;
use vstd::prelude::*;
use vstd::string::StringExecFns;

verus! {

/// Called with every tag that the decoder does not interpret itself; what
/// it returns stands in the output in place of the tag.
pub trait TagHook {
    fn call(&mut self, tag: u64, value: Value) -> Result<Value, DecodeError>;
}

/// Called with every map once its entries are read; what it returns stands
/// in the output in place of the map.
pub trait ObjectHook {
    fn call(&mut self, entries: Vec<(Value, Value)>) -> Result<Value, DecodeError>;
}

/// The hook of a decoder without hooks: it hands back what it was given,
/// as the decoder itself does where no hook is set.
pub struct NoHook;

impl TagHook for NoHook {
    /// The tag around its content, as it came.
    fn call(&mut self, tag: u64, value: Value) -> Result<Value, DecodeError>
        returns
            Ok::<Value, DecodeError>(Value::Tag(tag, Box::new(value))),
    {
        Ok(Value::Tag(tag, Box::new(value)))
    }
}

impl ObjectHook for NoHook {
    /// The map of the entries, in the order in which they came.
    fn call(&mut self, entries: Vec<(Value, Value)>) -> Result<Value, DecodeError>
        returns
            Ok::<Value, DecodeError>(Value::Dict(entries)),
    {
        Ok(Value::Dict(entries))
    }
}

/// One entry of the table of shared values.
#[derive(Debug)]
pub enum SharedSlot {
    /// Made by a marker whose value has not begun.
    Pending,
    /// Claimed by a container whose members are still being read.
    Building,
    /// Holds its value.
    Filled(Value),
}

/// The model of an entry of the table of shared values.
pub open spec fn slot_model(slot: SharedSlot) -> Slot {
    match slot {
        SharedSlot::Pending => Slot::Pending,
        SharedSlot::Building => Slot::Building,
        SharedSlot::Filled(v) => Slot::Filled(v@),
    }
}

/// The model of the table of shared values.
pub open spec fn slot_models(slots: Seq<SharedSlot>) -> Seq<Slot> {
    Seq::new(slots.len(), |i: int| slot_model(slots[i]))
}

/// The decoder.
pub struct CBORDecoder<S: ByteSource, T: TagHook, O: ObjectHook> {
    pub reader: Reader<S>,
    pub tag_hook: Option<T>,
    pub object_hook: Option<O>,
    pub str_errors: StrErrors,
    pub max_depth: usize,
    pub decode_depth: usize,
    pub share_index: Option<usize>,
    pub shareables: Vec<SharedSlot>,
    pub stringref_namespace: Option<Vec<Value>>,
    pub immutable: bool,
    /// The table of shared values as the last complete item left it: what
    /// the references in that item's value point into.
    pub last_shared: Vec<SharedSlot>,
}

/// Whether what the decoder did agrees with what the model says: the same
/// value with the model's rest ahead and the model's state, or the same
/// failure. Where the model stopped at a hook, the outcome is the hook's to
/// decide and nothing is asked of it.
pub open spec fn agrees<S: ByteSource, T: TagHook, O: ObjectHook>(
    r: Result<Value, DecodeError>,
    after: CBORDecoder<S, T, O>,
    expected: Parsed<Item>,
) -> bool {
    match (r, expected) {
        (Ok(v), Parsed::Done { value, rest, state }) => v@ == value && after.reader.stream() == rest
            && after.state() == state,
        (Err(e), Parsed::Failed(f)) => at_hook(after.state(), f) || e.same_as(f),
        (Ok(_), Parsed::Failed(f)) => at_hook(after.state(), f),
        _ => false,
    }
}

/// The name given is not the name of a policy for invalid UTF-8.
#[derive(Clone, Copy, PartialEq, Eq, Structural, Debug)]
pub struct InvalidStrErrors;

/// The deepest nesting that a decoder accepts unless it is told otherwise.
pub const DEFAULT_MAX_DEPTH: usize = 950;

/// The least number of bytes that a decoder asks of a source that can step
/// back, unless it is told otherwise.
pub const DEFAULT_READ_SIZE: usize = 4096;

impl<S: ByteSource, T: TagHook, O: ObjectHook> CBORDecoder<S, T, O> {
    /// A decoder over a source, or over bytes in memory where no source
    /// is given. Fails for a name that is not the name of a policy.
    pub fn new_internal(
        fp: Option<S>,
        buffer: Option<Vec<u8>>,
        tag_hook: Option<T>,
        object_hook: Option<O>,
        str_errors: &str,
        read_size: usize,
        max_depth: usize,
    ) -> (r: Result<Self, InvalidStrErrors>)
        requires
            fp matches Some(s) ==> s.position() <= s.content().len(),
        ensures
            r is Ok <==> StrErrors::named(str_errors@) is Some,
            r matches Ok(d) ==> {
                &&& d.wf()
                &&& d.decode_depth == 0
                &&& d.max_depth == max_depth
                &&& Some(d.str_errors) == StrErrors::named(str_errors@)
                &&& d.tag_hook == tag_hook
                &&& d.object_hook == object_hook
                &&& !d.immutable
                &&& d.share_index is None
                &&& d.shareables@.len() == 0
                &&& d.stringref_namespace is None
                &&& d.state() == with_hooks(
                    initial_state(d.str_errors, max_depth),
                    tag_hook is Some,
                    object_hook is Some,
                )
                &&& d.reader.source is Some == fp is Some
                &&& d.reader.stream() == match fp {
                    Some(s) => s.content().skip(s.position() as int),
                    None => match buffer {
                        Some(b) => b@,
                        None => Seq::empty(),
                    },
                }
            },
    {
        let policy = match StrErrors::parse(str_errors) {
            None => {
                return Err(InvalidStrErrors);
            },
            Some(p) => p,
        };
        let reader = match fp {
            Some(source) => Reader::from_source(source, read_size),
            None => match buffer {
                Some(data) => Reader::from_bytes(data),
                None => Reader::from_bytes(Vec::new()),
            },
        };
        let d = CBORDecoder {
            reader,
            tag_hook,
            object_hook,
            str_errors: policy,
            max_depth,
            decode_depth: 0,
            share_index: None,
            shareables: Vec::new(),
            stringref_namespace: None,
            immutable: false,
            last_shared: Vec::new(),
        };
        proof {
            assert(d.state().shareables =~= Seq::<Slot>::empty());
        }
        Ok(d)
    }

    /// A decoder over a source.
    pub fn new(
        fp: S,
        tag_hook: Option<T>,
        object_hook: Option<O>,
        str_errors: &str,
        read_size: usize,
        max_depth: usize,
    ) -> (r: Result<Self, InvalidStrErrors>)
        requires
            fp.position() <= fp.content().len(),
        ensures
            r is Ok <==> StrErrors::named(str_errors@) is Some,
            r matches Ok(d) ==> {
                &&& d.wf()
                &&& d.decode_depth == 0
                &&& d.max_depth == max_depth
                &&& Some(d.str_errors) == StrErrors::named(str_errors@)
                &&& d.tag_hook == tag_hook
                &&& d.object_hook == object_hook
                &&& !d.immutable
                &&& d.share_index is None
                &&& d.shareables@.len() == 0
                &&& d.stringref_namespace is None
                &&& d.state() == with_hooks(
                    initial_state(d.str_errors, max_depth),
                    tag_hook is Some,
                    object_hook is Some,
                )
                &&& d.reader.source is Some
                &&& d.reader.stream() == fp.content().skip(fp.position() as int)
            },
    {
        Self::new_internal(Some(fp), None, tag_hook, object_hook, str_errors, read_size, max_depth)
    }

    /// Sets the policy for invalid UTF-8 by its name; fails, and changes
    /// nothing, for any other name than the three.
    pub fn set_str_errors(&mut self, str_errors: &str) -> (r: Result<(), InvalidStrErrors>)
        ensures
            match StrErrors::named(str_errors@) {
                Some(p) => r is Ok && *final(self) == (CBORDecoder { str_errors: p, ..*old(self) }),
                None => r is Err && *final(self) == *old(self),
            },
    {
        match StrErrors::parse(str_errors) {
            None => Err(InvalidStrErrors),
            Some(p) => {
                self.str_errors = p;
                Ok(())
            },
        }
    }

    /// The name of the policy for invalid UTF-8.
    pub fn str_errors(&self) -> (name: &'static str)
        ensures
            StrErrors::named(name@) == Some(self.str_errors),
    {
        proof {
            reveal_strlit("strict");
            reveal_strlit("ignore");
            reveal_strlit("replace");
            assert("strict"@[0] == 's');
            assert("ignore"@[0] == 'i');
            assert("replace"@[0] == 'r');
        }
        match self.str_errors {
            StrErrors::Strict => "strict",
            StrErrors::Ignore => "ignore",
            StrErrors::Replace => "replace",
        }
    }

    /// Reads `amount` bytes from the stream.
    pub fn read(&mut self, amount: usize) -> (r: Result<Vec<u8>, DecodeError>)
        requires
            old(self).wf(),
        ensures
            final(self).wf(),
            final(self).same_setup(old(self)),
            final(self).state() == old(self).state(),
            r is Ok <==> amount <= old(self).reader.stream().len(),
            r matches Ok(bytes) ==> bytes@ == old(self).reader.stream().take(amount as int)
                && final(self).reader.stream() == old(self).reader.stream().skip(amount as int),
            r matches Err(e) ==> e is PrematureEof,
    {
        self.reader.read(amount)
    }

    /// Fills the slot that waits for the next container with the value, if
    /// a slot waits, and hands the value back.
    pub fn set_shareable(&mut self, value: Value) -> (r: Value)
        requires
            old(self).wf(),
        ensures
            r == value,
            final(self).wf(),
            final(self).same_setup(old(self)),
            final(self).reader == old(self).reader,
            final(self).state() == match old(self).state().share_index {
                Some(i) => if i < old(self).state().shareables.len() {
                    DecodeState {
                        share_index: None,
                        shareables: old(self).state().shareables.update(
                            i as int,
                            Slot::Filled(value@),
                        ),
                        ..old(self).state()
                    }
                } else {
                    DecodeState { share_index: None, ..old(self).state() }
                },
                None => old(self).state(),
            },
    {
        match self.share_index {
            None => {},
            Some(i) => {
                if i < self.shareables.len() {
                    let copy = value.duplicate();
                    self.shareables.set(i, SharedSlot::Filled(copy));
                    assert(slot_models(self.shareables@) =~= slot_models(old(self).shareables@).update(
                        i as int,
                        Slot::Filled(value@),
                    ));
                }
                self.share_index = None;
            },
        }
        value
    }

    /// Decodes one item from the bytes given instead of from the stream;
    /// the stream is as before afterwards. Depth and registries are those
    /// of the decoder.
    pub fn decode_from_bytes(&mut self, buf: Vec<u8>) -> (r: Result<Value, DecodeError>)
        requires
            old(self).wf(),
        ensures
            final(self).wf(),
            final(self).same_setup(old(self)),
            final(self).reader == old(self).reader,
            match (r, parse_item(buf@, old(self).state())) {
                (Ok(v), Parsed::Done { value, rest, state }) => v@ == value && final(self).state()
                    == state,
                (Err(e), Parsed::Failed(f)) => at_hook(old(self).state(), f) || e.same_as(f),
                (Ok(_), Parsed::Failed(f)) => at_hook(old(self).state(), f),
                _ => false,
            },
            r is Err && old(self).decode_depth == 0 ==> final(self).state() == Self::given_up(
                old(self).state(),
            ),
    {
        let mut aside: Reader<S> = Reader::from_bytes(buf);
        std::mem::swap(&mut self.reader, &mut aside);
        let result = self.decode();
        std::mem::swap(&mut self.reader, &mut aside);
        result
    }

    /// The state of the decoder as the model sees it.
    pub open spec fn state(&self) -> DecodeState {
        DecodeState {
            depth: self.decode_depth as nat,
            max_depth: self.max_depth,
            immutable: self.immutable,
            share_index: match self.share_index {
                Some(i) => Some(i as nat),
                None => None,
            },
            shareables: slot_models(self.shareables@),
            namespace: match self.stringref_namespace {
                Some(entries) => Some(models(entries@)),
                None => None,
            },
            str_errors: self.str_errors,
            tag_hook: self.tag_hook is Some,
            object_hook: self.object_hook is Some,
        }
    }

    /// The reader is sound and the depth is within its limit.
    pub open spec fn wf(&self) -> bool {
        &&& self.reader.wf()
        &&& self.decode_depth <= self.max_depth
    }

    /// What a call may not change: the limits, the policy, the depth, and
    /// whether there are hooks and a source. Below the top level the source
    /// is never stepped back either.
    pub open spec fn same_setup(&self, other: &Self) -> bool {
        &&& self.max_depth == other.max_depth
        &&& self.str_errors == other.str_errors
        &&& self.tag_hook is None == other.tag_hook is None
        &&& self.object_hook is None == other.object_hook is None
        &&& self.reader.source is None == other.reader.source is None
        &&& self.decode_depth == other.decode_depth
        &&& other.decode_depth > 0 ==> self.reader.went_on_from(&other.reader)
    }

    /// The state after a failure at the top level: the depth is 0, no slot
    /// waits, and both registries are empty.
    pub open spec fn given_up(st: DecodeState) -> DecodeState {
        DecodeState {
            depth: 0,
            share_index: None,
            shareables: Seq::empty(),
            namespace: None,
            ..st
        }
    }

    /// Reads the next `width` bytes as a big-endian number.
    fn read_number(&mut self, width: usize) -> (r: Result<u64, DecodeError>)
        requires
            old(self).wf(),
            width <= 8,
        ensures
            final(self).wf(),
            final(self).same_setup(old(self)),
            final(self).state() == old(self).state(),
            match (r, take_number(old(self).reader.stream(), width as nat)) {
                (Ok(n), Taken::Got { value, rest }) => n == value && final(self).reader.stream()
                    == rest && final(self).reader.stream().len() + width == old(self).reader.stream().len(),
                (Err(e), Taken::Missed(f)) => e.same_as(f),
                _ => false,
            },
    {
        match self.reader.read(width) {
            Ok(bytes) => Ok(be_to_u64(bytes.as_slice())),
            Err(e) => Err(e),
        }
    }

    /// Reads the length that a subtype announces; `None` is the indefinite
    /// length.
    pub fn decode_length(&mut self, subtype: u8) -> (r: Result<Option<u64>, DecodeError>)
        requires
            old(self).wf(),
            subtype < 32,
        ensures
            final(self).wf(),
            final(self).same_setup(old(self)),
            final(self).state() == old(self).state(),
            r is Ok ==> final(self).reader.stream().len() <= old(self).reader.stream().len(),
            match (r, take_length(old(self).reader.stream(), subtype)) {
                (Ok(n), Taken::Got { value, rest }) => n == value && final(self).reader.stream()
                    == rest,
                (Err(e), Taken::Missed(f)) => e.same_as(f),
                _ => false,
            },
    {
        if subtype < 24 {
            Ok(Some(subtype as u64))
        } else if subtype == 31 {
            Ok(None)
        } else if subtype > 27 {
            Err(DecodeError::UnknownLengthSubtype { subtype })
        } else {
            let width: usize = if subtype == 24 {
                1
            } else if subtype == 25 {
                2
            } else if subtype == 26 {
                4
            } else {
                8
            };
            match self.read_number(width) {
                Ok(n) => Ok(Some(n)),
                Err(e) => Err(e),
            }
        }
    }

    /// Reads a length that must be definite.
    pub fn decode_length_finite(&mut self, subtype: u8) -> (r: Result<u64, DecodeError>)
        requires
            old(self).wf(),
            subtype < 32,
        ensures
            final(self).wf(),
            final(self).same_setup(old(self)),
            final(self).state() == old(self).state(),
            r is Ok ==> final(self).reader.stream().len() <= old(self).reader.stream().len(),
            match (r, take_finite_length(old(self).reader.stream(), subtype)) {
                (Ok(n), Taken::Got { value, rest }) => n == value && final(self).reader.stream()
                    == rest,
                (Err(e), Taken::Missed(f)) => e.same_as(f),
                _ => false,
            },
    {
        match self.decode_length(subtype) {
            Ok(Some(n)) => Ok(n),
            Ok(None) => Err(DecodeError::IndefiniteLengthNotAllowed),
            Err(e) => Err(e),
        }
    }

    /// Reads `length` bytes, at most 65536 at a time.
    fn read_chunked(&mut self, length: usize) -> (r: Result<Vec<u8>, DecodeError>)
        requires
            old(self).wf(),
        ensures
            final(self).wf(),
            final(self).same_setup(old(self)),
            final(self).state() == old(self).state(),
            match (r, take_bytes(old(self).reader.stream(), length as nat)) {
                (Ok(bytes), Taken::Got { value, rest }) => bytes@ == value && final(self).reader.stream() == rest && final(self).reader.stream().len() + length == old(self).reader.stream().len(),
                (Err(e), Taken::Missed(f)) => e.same_as(f),
                _ => false,
            },
    {
        if length <= 65536 {
            return self.reader.read(length);
        }
        let ghost input = self.reader.stream();
        let mut out: Vec<u8> = Vec::new();
        let mut remaining: usize = length;
        proof {
            assert(input.skip(0) =~= input);
            assert(out@ =~= input.take(0));
        }
        while remaining > 0
            invariant
                self.wf(),
                self.same_setup(old(self)),
                self.state() == old(self).state(),
                input == old(self).reader.stream(),
                out@.len() + remaining == length,
                out@.len() <= input.len(),
                out@ == input.take(out@.len() as int),
                self.reader.stream() == input.skip(out@.len() as int),
            decreases remaining,
        {
            let step: usize = if remaining < 65536 {
                remaining
            } else {
                65536
            };
            let ghost done = out@.len() as int;
            match self.reader.read(step) {
                Err(e) => {
                    proof {
                        assert(input.skip(done).len() == input.len() - done);
                    }
                    return Err(e);
                },
                Ok(mut chunk) => {
                    let ghost piece = chunk@;
                    out.append(&mut chunk);
                    remaining = remaining - step;
                    proof {
                        assert(out@ =~= input.take(done + step));
                        assert(input.skip(done).skip(step as int) =~= input.skip(done + step));
                    }
                },
            }
        }
        Ok(out)
    }

    /// Reads the bytes of a string of definite length.
    fn read_payload(&mut self, length: u64) -> (r: Result<Vec<u8>, DecodeError>)
        requires
            old(self).wf(),
        ensures
            final(self).wf(),
            final(self).same_setup(old(self)),
            final(self).state() == old(self).state(),
            r is Ok ==> final(self).reader.stream().len() <= old(self).reader.stream().len(),
            match (r, take_payload(old(self).reader.stream(), length)) {
                (Ok(bytes), Taken::Got { value, rest }) => bytes@ == value && final(self).reader.stream() == rest,
                (Err(e), Taken::Missed(f)) => e.same_as(f),
                _ => false,
            },
    {
        if length > usize::MAX as u64 {
            return Err(DecodeError::LengthTooLarge { length });
        }
        self.read_chunked(length as usize)
    }

    /// Appends a string that was read to the namespace of string
    /// references, where one is open and the string is long enough for a
    /// namespace of that size. `length` is the length in bytes, or the
    /// largest number where the length is beyond it.
    fn add_string_to_namespace(&mut self, string: Value, length: usize)
        requires
            old(self).wf(),
        ensures
            final(self).wf(),
            final(self).same_setup(old(self)),
            final(self).reader == old(self).reader,
            final(self).state() == (DecodeState {
                namespace: offer(old(self).state().namespace, string@, length as nat),
                ..old(self).state()
            }),
    {
        match &mut self.stringref_namespace {
            None => {},
            Some(entries) => {
                let count = entries.len();
                let threshold: usize = if count < 24 {
                    3
                } else if count < 256 {
                    4
                } else if count < 65536 {
                    5
                } else if count as u64 <= 0xffff_ffff {
                    6
                } else {
                    11
                };
                if length >= threshold {
                    proof {
                        lemma_models_push(entries@, string);
                    }
                    entries.push(string);
                }
            },
        }
    }

    /// Reads the chunks of a string of indefinite length up to the break.
    fn read_chunks(&mut self, major: u8) -> (r: Result<Vec<Vec<u8>>, DecodeError>)
        requires
            old(self).wf(),
        ensures
            final(self).wf(),
            final(self).same_setup(old(self)),
            final(self).state() == old(self).state(),
            r is Ok ==> final(self).reader.stream().len() < old(self).reader.stream().len(),
            match (r, take_chunks(old(self).reader.stream(), major, Seq::empty())) {
                (Ok(chunks), Taken::Got { value, rest }) => chunk_views(chunks@) == value && final(self).reader.stream() == rest,
                (Err(e), Taken::Missed(f)) => e.same_as(f),
                _ => false,
            },
    {
        let ghost input = self.reader.stream();
        let mut chunks: Vec<Vec<u8>> = Vec::new();
        assert(chunk_views(chunks@) =~= Seq::<Seq<u8>>::empty());
        loop
            invariant
                self.wf(),
                self.same_setup(old(self)),
                self.state() == old(self).state(),
                input == old(self).reader.stream(),
                self.reader.stream().len() <= input.len(),
                take_chunks(self.reader.stream(), major, chunk_views(chunks@)) == take_chunks(
                    input,
                    major,
                    Seq::empty(),
                ),
            decreases self.reader.stream().len(),
        {
            let ghost here = self.reader.stream();
            let ghost seen = chunk_views(chunks@);
            let initial = match self.reader.read(1) {
                Err(e) => {
                    assert(take_chunks(here, major, seen) == Taken::<Seq<Seq<u8>>>::Missed(
                        end_of_stream(),
                    ));
                    return Err(e);
                },
                Ok(bytes) => bytes[0],
            };
            assert(initial == here[0]);
            assert(self.reader.stream() == here.skip(1));
            if initial == 0xff {
                return Ok(chunks);
            }
            let (found, subtype) = split_initial_byte(initial);
            if found != major {
                return Err(DecodeError::WrongChunkType { wanted: major, found });
            }
            let length = match self.decode_length_finite(subtype) {
                Err(e) => {
                    return Err(e);
                },
                Ok(n) => n,
            };
            if length > isize::MAX as u64 {
                return Err(DecodeError::ChunkTooLong { length });
            }
            let chunk = match self.read_chunked(length as usize) {
                Err(e) => {
                    return Err(e);
                },
                Ok(bytes) => bytes,
            };
            proof {
                assert(chunk_views(chunks@).push(chunk@) =~= chunk_views(chunks@.push(chunk)));
            }
            chunks.push(chunk);
        }
    }

    /// Major type 2: a byte string, in one piece or in chunks.
    pub fn decode_bytestring(&mut self, subtype: u8) -> (r: Result<Value, DecodeError>)
        requires
            old(self).wf(),
            subtype < 32,
        ensures
            final(self).wf(),
            final(self).same_setup(old(self)),
            r is Ok ==> final(self).reader.stream().len() <= old(self).reader.stream().len(),
            agrees(
                r,
                *final(self),
                parse_byte_string(old(self).reader.stream(), subtype, old(self).state()),
            ),
            r is Err ==> final(self).state() == old(self).state(),
    {
        let length = match self.decode_length(subtype) {
            Err(e) => {
                return Err(e);
            },
            Ok(n) => n,
        };
        let bytes = match length {
            None => {
                let chunks = match self.read_chunks(2) {
                    Err(e) => {
                        return Err(e);
                    },
                    Ok(c) => c,
                };
                join_chunks(&chunks)
            },
            Some(n) => match self.read_payload(n) {
                Err(e) => {
                    return Err(e);
                },
                Ok(b) => b,
            },
        };
        let size = bytes.len();
        let copy = copy_bytes(&bytes);
        self.add_string_to_namespace(Value::Bytes(copy), size);
        Ok(Value::Bytes(bytes))
    }

    /// Major type 3: a text string, in one piece or in chunks, decoded
    /// from UTF-8 under the policy of the decoder.
    pub fn decode_string(&mut self, subtype: u8) -> (r: Result<Value, DecodeError>)
        requires
            old(self).wf(),
            subtype < 32,
        ensures
            final(self).wf(),
            final(self).same_setup(old(self)),
            r is Ok ==> final(self).reader.stream().len() <= old(self).reader.stream().len(),
            agrees(
                r,
                *final(self),
                parse_text_string(old(self).reader.stream(), subtype, old(self).state()),
            ),
            r is Err ==> final(self).state() == old(self).state(),
    {
        let length = match self.decode_length(subtype) {
            Err(e) => {
                return Err(e);
            },
            Ok(n) => n,
        };
        let (text, size) = match length {
            None => {
                let chunks = match self.read_chunks(3) {
                    Err(e) => {
                        return Err(e);
                    },
                    Ok(c) => c,
                };
                match join_text(chunks, self.str_errors) {
                    None => {
                        return Err(DecodeError::InvalidUtf8);
                    },
                    Some(pair) => pair,
                }
            },
            Some(n) => {
                let bytes = match self.read_payload(n) {
                    Err(e) => {
                        return Err(e);
                    },
                    Ok(b) => b,
                };
                let size = bytes.len();
                match decode_text(bytes, self.str_errors) {
                    None => {
                        return Err(DecodeError::InvalidUtf8);
                    },
                    Some(text) => (text, size),
                }
            },
        };
        let copy = text.clone();
        self.add_string_to_namespace(Value::Text(copy), size);
        Ok(Value::Text(text))
    }

    /// Lets the container or tag that begins here claim the slot that
    /// waits for it, if one does.
    fn claim_slot(&mut self)
        requires
            old(self).wf(),
        ensures
            final(self).wf(),
            final(self).same_setup(old(self)),
            final(self).reader == old(self).reader,
            final(self).state() == claim(old(self).state()),
    {
        match self.share_index {
            None => {},
            Some(i) => {
                if i < self.shareables.len() {
                    self.shareables.set(i, SharedSlot::Building);
                    assert(slot_models(self.shareables@) =~= slot_models(old(self).shareables@).update(
                        i as int,
                        Slot::Building,
                    ));
                }
                self.share_index = None;
            },
        }
    }

    /// Reads `count` items.
    fn read_items(&mut self, count: u64) -> (r: Result<Vec<Value>, DecodeError>)
        requires
            old(self).wf(),
        ensures
            final(self).wf(),
            final(self).same_setup(old(self)),
            r is Ok ==> final(self).reader.stream().len() <= old(self).reader.stream().len(),
            match (
                r,
                parse_items(
                    old(self).reader.stream(),
                    count as nat,
                    old(self).state(),
                    Seq::empty(),
                ),
            ) {
                (Ok(items), Parsed::Done { value, rest, state }) => models(items@) == value
                    && final(self).reader.stream() == rest && final(self).state() == state,
                (Err(e), Parsed::Failed(f)) => at_hook(old(self).state(), f) || e.same_as(f),
                (Ok(_), Parsed::Failed(f)) => at_hook(old(self).state(), f),
                _ => false,
            },
        decreases old(self).reader.stream().len(), 1nat, count,
    {
        let mut items: Vec<Value> = Vec::new();
        let mut left: u64 = count;
        assert(models(items@) =~= Seq::<Item>::empty());
        while left > 0
            invariant
                self.wf(),
                self.same_setup(old(self)),
                left <= count,
                self.reader.stream().len() <= old(self).reader.stream().len(),
                stopped(old(self).state(), parse_items(
                    old(self).reader.stream(),
                    count as nat,
                    old(self).state(),
                    Seq::empty(),
                )) || parse_items(
                    self.reader.stream(),
                    left as nat,
                    self.state(),
                    models(items@),
                ) == parse_items(
                    old(self).reader.stream(),
                    count as nat,
                    old(self).state(),
                    Seq::empty(),
                ),
            decreases left,
        {
            proof {
                lemma_parse_items(
                    self.reader.stream(),
                    left as nat,
                    self.state(),
                    models(items@),
                );
            }
            let v = match self.decode() {
                Err(e) => {
                    return Err(e);
                },
                Ok(v) => v,
            };
            proof {
                lemma_models_push(items@, v);
            }
            items.push(v);
            left = left - 1;
        }
        proof {
            lemma_parse_items(self.reader.stream(), 0, self.state(), models(items@));
        }
        Ok(items)
    }

    /// Reads items up to the break.
    fn read_items_to_break(&mut self) -> (r: Result<Vec<Value>, DecodeError>)
        requires
            old(self).wf(),
        ensures
            final(self).wf(),
            final(self).same_setup(old(self)),
            r is Ok ==> final(self).reader.stream().len() <= old(self).reader.stream().len(),
            match (
                r,
                parse_items_to_break(old(self).reader.stream(), old(self).state(), Seq::empty()),
            ) {
                (Ok(items), Parsed::Done { value, rest, state }) => models(items@) == value
                    && final(self).reader.stream() == rest && final(self).state() == state,
                (Err(e), Parsed::Failed(f)) => at_hook(old(self).state(), f) || e.same_as(f),
                (Ok(_), Parsed::Failed(f)) => at_hook(old(self).state(), f),
                _ => false,
            },
        decreases old(self).reader.stream().len(), 1nat, 0nat,
    {
        let mut items: Vec<Value> = Vec::new();
        assert(models(items@) =~= Seq::<Item>::empty());
        loop
            invariant
                self.wf(),
                self.same_setup(old(self)),
                self.reader.stream().len() <= old(self).reader.stream().len(),
                stopped(old(self).state(), parse_items_to_break(
                    old(self).reader.stream(),
                    old(self).state(),
                    Seq::empty(),
                )) || parse_items_to_break(
                    self.reader.stream(),
                    self.state(),
                    models(items@),
                ) == parse_items_to_break(
                    old(self).reader.stream(),
                    old(self).state(),
                    Seq::empty(),
                ),
            decreases self.reader.stream().len(),
        {
            proof {
                lemma_parse_items_to_break(self.reader.stream(), self.state(), models(items@));
            }
            let v = match self.decode() {
                Err(e) => {
                    return Err(e);
                },
                Ok(v) => v,
            };
            if let Value::Break = v {
                return Ok(items);
            }
            proof {
                lemma_models_push(items@, v);
            }
            items.push(v);
        }
    }

    /// Major type 4: an array. In the immutable context the items make a
    /// tuple; otherwise a list, which claims the waiting slot of the table
    /// of shared values before its items are read.
    pub fn decode_array(&mut self, subtype: u8) -> (r: Result<Value, DecodeError>)
        requires
            old(self).wf(),
            subtype < 32,
        ensures
            final(self).wf(),
            final(self).same_setup(old(self)),
            r is Ok ==> final(self).reader.stream().len() <= old(self).reader.stream().len(),
            agrees(
                r,
                *final(self),
                parse_array(old(self).reader.stream(), subtype, old(self).state()),
            ),
        decreases old(self).reader.stream().len(), 2nat, 0nat,
    {
        proof {
            lemma_parse_array(self.reader.stream(), subtype, self.state());
        }
        let length = match self.decode_length(subtype) {
            Err(e) => {
                return Err(e);
            },
            Ok(n) => n,
        };
        let immutable = self.immutable;
        if !immutable {
            self.claim_slot();
        }
        let items = match length {
            Some(n) => self.read_items(n),
            None => self.read_items_to_break(),
        };
        match items {
            Err(e) => Err(e),
            Ok(items) => {
                let out = if immutable {
                    Value::Tuple(items)
                } else {
                    Value::Array(items)
                };
                proof {
                    lemma_model_unfold(out);
                }
                Ok(out)
            },
        }
    }

    /// Reads one key in the immutable context and its value in the
    /// context around, and sets the key to the value. With `to_break`, a
    /// break in place of the key ends the map and `true` is returned.
    fn read_entry(&mut self, entries: &mut Vec<(Value, Value)>, to_break: bool) -> (r: Result<
        bool,
        DecodeError,
    >)
        requires
            old(self).wf(),
        ensures
            final(self).wf(),
            final(self).same_setup(old(self)),
            r is Ok ==> final(self).reader.stream().len() < old(self).reader.stream().len(),
            match (
                r,
                parse_entry(
                    old(self).reader.stream(),
                    old(self).state(),
                    entry_models(old(entries)@),
                    to_break,
                ),
            ) {
                (Ok(ended), Parsed::Done { value, rest, state }) => entry_models(final(entries)@)
                    == value.0 && ended == value.1 && final(self).reader.stream() == rest
                    && final(self).state() == state,
                (Err(e), Parsed::Failed(f)) => at_hook(old(self).state(), f) || e.same_as(f),
                (Ok(_), Parsed::Failed(f)) => at_hook(old(self).state(), f),
                _ => false,
            },
        decreases old(self).reader.stream().len(), 1nat, 0nat,
    {
        proof {
            lemma_parse_entry(
                self.reader.stream(),
                self.state(),
                entry_models(entries@),
                to_break,
            );
        }
        let immutable = self.immutable;
        self.immutable = true;
        let key = match self.decode() {
            Err(e) => {
                return Err(e);
            },
            Ok(v) => v,
        };
        self.immutable = immutable;
        if to_break {
            if let Value::Break = key {
                return Ok(true);
            }
        }
        let value = match self.decode() {
            Err(e) => {
                return Err(e);
            },
            Ok(v) => v,
        };
        if !key.is_hashable() {
            return Err(DecodeError::UnhashableKey);
        }
        insert_entry(entries, key, value);
        Ok(false)
    }

    /// Reads `count` entries of a map.
    fn read_entries(&mut self, count: u64) -> (r: Result<Vec<(Value, Value)>, DecodeError>)
        requires
            old(self).wf(),
        ensures
            final(self).wf(),
            final(self).same_setup(old(self)),
            r is Ok ==> final(self).reader.stream().len() <= old(self).reader.stream().len(),
            match (
                r,
                parse_entries(
                    old(self).reader.stream(),
                    count as nat,
                    old(self).state(),
                    Seq::empty(),
                ),
            ) {
                (Ok(entries), Parsed::Done { value, rest, state }) => entry_models(entries@)
                    == value && final(self).reader.stream() == rest && final(self).state()
                    == state,
                (Err(e), Parsed::Failed(f)) => at_hook(old(self).state(), f) || e.same_as(f),
                (Ok(_), Parsed::Failed(f)) => at_hook(old(self).state(), f),
                _ => false,
            },
        decreases old(self).reader.stream().len(), 2nat, count,
    {
        let mut entries: Vec<(Value, Value)> = Vec::new();
        let mut left: u64 = count;
        assert(entry_models(entries@) =~= Seq::<(Item, Item)>::empty());
        while left > 0
            invariant
                self.wf(),
                self.same_setup(old(self)),
                left <= count,
                self.reader.stream().len() <= old(self).reader.stream().len(),
                stopped(old(self).state(), parse_entries(
                    old(self).reader.stream(),
                    count as nat,
                    old(self).state(),
                    Seq::empty(),
                )) || parse_entries(
                    self.reader.stream(),
                    left as nat,
                    self.state(),
                    entry_models(entries@),
                ) == parse_entries(
                    old(self).reader.stream(),
                    count as nat,
                    old(self).state(),
                    Seq::empty(),
                ),
            decreases left,
        {
            proof {
                lemma_parse_entries(
                    self.reader.stream(),
                    left as nat,
                    self.state(),
                    entry_models(entries@),
                );
            }
            match self.read_entry(&mut entries, false) {
                Err(e) => {
                    return Err(e);
                },
                Ok(_) => {},
            }
            left = left - 1;
        }
        proof {
            lemma_parse_entries(self.reader.stream(), 0, self.state(), entry_models(entries@));
        }
        Ok(entries)
    }

    /// Reads entries of a map up to the break.
    fn read_entries_to_break(&mut self) -> (r: Result<Vec<(Value, Value)>, DecodeError>)
        requires
            old(self).wf(),
        ensures
            final(self).wf(),
            final(self).same_setup(old(self)),
            r is Ok ==> final(self).reader.stream().len() <= old(self).reader.stream().len(),
            match (
                r,
                parse_entries_to_break(old(self).reader.stream(), old(self).state(), Seq::empty()),
            ) {
                (Ok(entries), Parsed::Done { value, rest, state }) => entry_models(entries@)
                    == value && final(self).reader.stream() == rest && final(self).state()
                    == state,
                (Err(e), Parsed::Failed(f)) => at_hook(old(self).state(), f) || e.same_as(f),
                (Ok(_), Parsed::Failed(f)) => at_hook(old(self).state(), f),
                _ => false,
            },
        decreases old(self).reader.stream().len(), 2nat, 0nat,
    {
        let mut entries: Vec<(Value, Value)> = Vec::new();
        assert(entry_models(entries@) =~= Seq::<(Item, Item)>::empty());
        loop
            invariant
                self.wf(),
                self.same_setup(old(self)),
                self.reader.stream().len() <= old(self).reader.stream().len(),
                stopped(old(self).state(), parse_entries_to_break(
                    old(self).reader.stream(),
                    old(self).state(),
                    Seq::empty(),
                )) || parse_entries_to_break(
                    self.reader.stream(),
                    self.state(),
                    entry_models(entries@),
                ) == parse_entries_to_break(
                    old(self).reader.stream(),
                    old(self).state(),
                    Seq::empty(),
                ),
            decreases self.reader.stream().len(),
        {
            proof {
                lemma_parse_entries_to_break(
                    self.reader.stream(),
                    self.state(),
                    entry_models(entries@),
                );
            }
            match self.read_entry(&mut entries, true) {
                Err(e) => {
                    return Err(e);
                },
                Ok(ended) => {
                    if ended {
                        return Ok(entries);
                    }
                },
            }
        }
    }

    /// Major type 5: a map. Keys are read in the immutable context. Outside
    /// it the map claims the waiting slot of the table of shared values
    /// before its entries are read; inside it the entries make a frozen
    /// map. The object hook, where one is set, gets the entries and its
    /// result is returned.
    pub fn decode_map(&mut self, subtype: u8) -> (r: Result<Value, DecodeError>)
        requires
            old(self).wf(),
            subtype < 32,
        ensures
            final(self).wf(),
            final(self).same_setup(old(self)),
            r is Ok ==> final(self).reader.stream().len() <= old(self).reader.stream().len(),
            agrees(
                r,
                *final(self),
                parse_map(old(self).reader.stream(), subtype, old(self).state()),
            ),
        decreases old(self).reader.stream().len(), 3nat, 0nat,
    {
        proof {
            lemma_parse_map(self.reader.stream(), subtype, self.state());
        }
        let length = match self.decode_length(subtype) {
            Err(e) => {
                return Err(e);
            },
            Ok(n) => n,
        };
        let immutable = self.immutable;
        if !immutable {
            self.claim_slot();
        }
        let entries = match length {
            Some(n) => self.read_entries(n),
            None => self.read_entries_to_break(),
        };
        let entries = match entries {
            Err(e) => {
                return Err(e);
            },
            Ok(entries) => entries,
        };
        match &mut self.object_hook {
            Some(hook) => finish_map_with_hook(hook.call(entries)),
            None => {
                let out = if immutable {
                    Value::FrozenDict(entries)
                } else {
                    Value::Dict(entries)
                };
                proof {
                    lemma_model_unfold(out);
                }
                Ok(out)
            },
        }
    }

    /// Major type 6: a semantic tag.
    ///
    /// Tag 25 names a string of the open namespace, 28 marks its content as
    /// shared, 29 names a shared value, 256 opens a namespace around its
    /// content, 55799 stands for its content. The content of an interpreted
    /// tag is turned into the value it stands for. Every other tag is
    /// handed to the tag hook, where one is set, and is itself the value
    /// otherwise.
    pub fn decode_semantic(&mut self, subtype: u8) -> (r: Result<Value, DecodeError>)
        requires
            old(self).wf(),
            subtype < 32,
        ensures
            final(self).wf(),
            final(self).same_setup(old(self)),
            r is Ok ==> final(self).reader.stream().len() <= old(self).reader.stream().len(),
            agrees(
                r,
                *final(self),
                parse_tagged(old(self).reader.stream(), subtype, old(self).state()),
            ),
        decreases old(self).reader.stream().len(), 3nat, 0nat,
    {
        proof {
            lemma_parse_tagged(self.reader.stream(), subtype, self.state());
        }
        let tag = match self.decode_length_finite(subtype) {
            Err(e) => {
                return Err(e);
            },
            Ok(n) => n,
        };
        if tag == 25 {
            self.decode_stringref()
        } else if tag == 28 {
            self.decode_shareable()
        } else if tag == 29 {
            self.decode_sharedref()
        } else if tag == 256 {
            self.decode_stringref_namespace()
        } else if tag == 55799 {
            self.decode()
        } else if interprets(tag) {
            let immutable = self.immutable;
            if !reads_in_any_context(tag) {
                self.immutable = true;
            }
            let content = match self.decode() {
                Err(e) => {
                    return Err(e);
                },
                Ok(v) => v,
            };
            self.immutable = immutable;
            interpret(tag, content, immutable)
        } else {
            let immutable = self.immutable;
            let hooked = self.tag_hook.is_some();
            if !hooked {
                self.claim_slot();
            }
            self.immutable = true;
            let content = match self.decode() {
                Err(e) => {
                    return Err(e);
                },
                Ok(v) => v,
            };
            self.immutable = immutable;
            match &mut self.tag_hook {
                Some(hook) => finish_tag_with_hook(hook.call(tag, content)),
                None => Ok(Value::Tag(tag, Box::new(content))),
            }
        }
    }

    /// Tag 25: the string of the open namespace that the index names.
    fn decode_stringref(&mut self) -> (r: Result<Value, DecodeError>)
        requires
            old(self).wf(),
        ensures
            final(self).wf(),
            final(self).same_setup(old(self)),
            r is Ok ==> final(self).reader.stream().len() <= old(self).reader.stream().len(),
            match parse_item(
                old(self).reader.stream(),
                old(self).state(),
            ) {
                Parsed::Failed(f) => at_hook(old(self).state(), f) || (r matches Err(e) && e.same_as(f)),
                Parsed::Done { value, rest, state } => match reference_index(value) {
                    None => r == Err::<Value, DecodeError>(DecodeError::InvalidReferenceIndex),
                    Some(index) => match string_reference(state.namespace, index) {
                        Err(f) => r == Err::<Value, DecodeError>(f),
                        Ok(item) => agrees(r, *final(self), Parsed::Done { value: item, rest, state }),
                    },
                },
            },
        decreases old(self).reader.stream().len(), 2nat, 0nat,
    {
        let index = match self.decode() {
            Err(e) => {
                return Err(e);
            },
            Ok(v) => v,
        };
        let index = match small_index(&index) {
            None => {
                return Err(DecodeError::InvalidReferenceIndex);
            },
            Some(i) => i,
        };
        match &self.stringref_namespace {
            None => Err(DecodeError::StringReferenceOutsideNamespace),
            Some(entries) => {
                if index >= entries.len() as u64 {
                    Err(DecodeError::StringReferenceNotFound { index })
                } else {
                    Ok(entries[index as usize].duplicate())
                }
            },
        }
    }

    /// Tag 28: a new slot of the table of shared values, filled with the
    /// content once it is read. The result is a reference to the slot where
    /// the content has an identity of its own, and the content otherwise.
    fn decode_shareable(&mut self) -> (r: Result<Value, DecodeError>)
        requires
            old(self).wf(),
        ensures
            final(self).wf(),
            final(self).same_setup(old(self)),
            r is Ok ==> final(self).reader.stream().len() <= old(self).reader.stream().len(),
            ({
                let st = old(self).state();
                let index = st.shareables.len();
                let marked = DecodeState {
                    share_index: Some(index),
                    shareables: st.shareables.push(Slot::Pending),
                    ..st
                };
                match parse_item(old(self).reader.stream(), marked) {
                    Parsed::Failed(f) => at_hook(old(self).state(), f) || (r matches Err(e) && e.same_as(f)),
                    Parsed::Done { value, rest, state } => agrees(
                        r,
                        *final(self),
                        Parsed::Done {
                            value: if crate::collections::is_mutable(value) {
                                Item::Shared(index)
                            } else {
                                value
                            },
                            rest,
                            state: DecodeState {
                                share_index: st.share_index,
                                shareables: if index < state.shareables.len() {
                                    state.shareables.update(index as int, Slot::Filled(value))
                                } else {
                                    state.shareables
                                },
                                ..state
                            },
                        },
                    ),
                }
            }),
        decreases old(self).reader.stream().len(), 2nat, 0nat,
    {
        let outer = self.share_index;
        let index = self.shareables.len();
        self.share_index = Some(index);
        self.shareables.push(SharedSlot::Pending);
        proof {
            assert(slot_models(self.shareables@) =~= slot_models(old(self).shareables@).push(
                Slot::Pending,
            ));
        }
        let content = match self.decode() {
            Err(e) => {
                return Err(e);
            },
            Ok(v) => v,
        };
        self.share_index = outer;
        let out = if content.is_mutable() {
            Value::Shared(index)
        } else {
            content.duplicate()
        };
        if index < self.shareables.len() {
            let ghost before = self.shareables@;
            self.shareables.set(index, SharedSlot::Filled(content));
            proof {
                assert(slot_models(self.shareables@) =~= slot_models(before).update(
                    index as int,
                    Slot::Filled(content@),
                ));
            }
        }
        Ok(out)
    }

    /// Tag 29: the shared value that the index names.
    fn decode_sharedref(&mut self) -> (r: Result<Value, DecodeError>)
        requires
            old(self).wf(),
        ensures
            final(self).wf(),
            final(self).same_setup(old(self)),
            r is Ok ==> final(self).reader.stream().len() <= old(self).reader.stream().len(),
            match parse_item(
                old(self).reader.stream(),
                old(self).state(),
            ) {
                Parsed::Failed(f) => at_hook(old(self).state(), f) || (r matches Err(e) && e.same_as(f)),
                Parsed::Done { value, rest, state } => match reference_index(value) {
                    None => r == Err::<Value, DecodeError>(DecodeError::InvalidReferenceIndex),
                    Some(index) => match shared_value(state.shareables, index) {
                        Err(f) => r == Err::<Value, DecodeError>(f),
                        Ok(item) => agrees(r, *final(self), Parsed::Done { value: item, rest, state }),
                    },
                },
            },
        decreases old(self).reader.stream().len(), 2nat, 0nat,
    {
        let index = match self.decode() {
            Err(e) => {
                return Err(e);
            },
            Ok(v) => v,
        };
        let index = match small_index(&index) {
            None => {
                return Err(DecodeError::InvalidReferenceIndex);
            },
            Some(i) => i,
        };
        if index >= self.shareables.len() as u64 {
            return Err(DecodeError::SharedReferenceNotFound { index });
        }
        match &self.shareables[index as usize] {
            SharedSlot::Pending => Err(DecodeError::SharedValueNotInitialized { index }),
            SharedSlot::Building => Ok(Value::Shared(index as usize)),
            SharedSlot::Filled(v) => {
                if v.is_mutable() {
                    Ok(Value::Shared(index as usize))
                } else {
                    Ok(v.duplicate())
                }
            },
        }
    }

    /// Tag 256: a new, empty namespace of string references around the
    /// content; the namespace around it is back in place afterwards.
    fn decode_stringref_namespace(&mut self) -> (r: Result<Value, DecodeError>)
        requires
            old(self).wf(),
        ensures
            final(self).wf(),
            final(self).same_setup(old(self)),
            r is Ok ==> final(self).reader.stream().len() <= old(self).reader.stream().len(),
            match parse_item(
                old(self).reader.stream(),
                DecodeState { namespace: Some(Seq::empty()), ..old(self).state() },
            ) {
                Parsed::Failed(f) => at_hook(old(self).state(), f) || (r matches Err(e) && e.same_as(f)),
                Parsed::Done { value, rest, state } => agrees(
                    r,
                    *final(self),
                    Parsed::Done {
                        value,
                        rest,
                        state: DecodeState { namespace: old(self).state().namespace, ..state },
                    },
                ),
            },
        decreases old(self).reader.stream().len(), 2nat, 0nat,
    {
        let mut outer: Option<Vec<Value>> = Some(Vec::new());
        std::mem::swap(&mut self.stringref_namespace, &mut outer);
        proof {
            assert(models(self.stringref_namespace->0@) =~= Seq::<Item>::empty());
        }
        let content = match self.decode() {
            Err(e) => {
                return Err(e);
            },
            Ok(v) => v,
        };
        self.stringref_namespace = outer;
        Ok(content)
    }

    /// Reads what follows the initial byte, as the major type asks.
    fn decode_major(&mut self, major: u8, subtype: u8) -> (r: Result<Value, DecodeError>)
        requires
            old(self).wf(),
            major < 8,
            subtype < 32,
        ensures
            final(self).wf(),
            final(self).same_setup(old(self)),
            r is Ok ==> final(self).reader.stream().len() <= old(self).reader.stream().len(),
            agrees(
                r,
                *final(self),
                parse_major(old(self).reader.stream(), major, subtype, old(self).state()),
            ),
        decreases old(self).reader.stream().len(), 4nat, 0nat,
    {
        proof {
            lemma_parse_major(self.reader.stream(), major, subtype, self.state());
        }
        if major == 0 {
            self.decode_uint(subtype)
        } else if major == 1 {
            self.decode_negint(subtype)
        } else if major == 2 {
            self.decode_bytestring(subtype)
        } else if major == 3 {
            self.decode_string(subtype)
        } else if major == 4 {
            self.decode_array(subtype)
        } else if major == 5 {
            self.decode_map(subtype)
        } else if major == 6 {
            self.decode_semantic(subtype)
        } else {
            self.decode_special(subtype)
        }
    }

    /// Decodes the next item.
    ///
    /// Fails where the item would be nested deeper than the limit. When
    /// an item at the top level is complete, the table of shared values is
    /// set aside for the caller, both registries are emptied, and the
    /// source is stepped back over what was read ahead. When an item at
    /// the top level fails, the registries are emptied too, but the source
    /// stays where the last read left it.
    pub fn decode(&mut self) -> (r: Result<Value, DecodeError>)
        requires
            old(self).wf(),
        ensures
            final(self).wf(),
            final(self).same_setup(old(self)),
            r is Ok ==> final(self).reader.stream().len() < old(self).reader.stream().len(),
            agrees(
                r,
                *final(self),
                parse_item(old(self).reader.stream(), old(self).state()),
            ),
            old(self).decode_depth == 0 ==> (parse_body(
                old(self).reader.stream(),
                old(self).state(),
            ) matches Parsed::Done { state, .. } ==> slot_models(final(self).last_shared@)
                == state.shareables),
            old(self).decode_depth == 0 && r is Ok && final(self).reader.source is Some
                ==> final(self).reader.available == 0,
            r is Err && old(self).decode_depth == 0 ==> final(self).state() == Self::given_up(
                old(self).state(),
            ),
            r is Err ==> final(self).reader.went_on_from(&old(self).reader),
        decreases old(self).reader.stream().len(), 0nat, 1nat,
    {
        proof {
            lemma_parse_item(self.reader.stream(), self.state());
            lemma_parse_body(self.reader.stream(), self.state());
        }
        let depth = self.decode_depth;
        let immutable = self.immutable;
        if depth >= self.max_depth {
            self.give_up(depth, immutable);
            return Err(DecodeError::RecursionLimit { max_depth: self.max_depth });
        }
        let initial = match self.reader.read(1) {
            Err(e) => {
                self.give_up(depth, immutable);
                return Err(e);
            },
            Ok(bytes) => bytes[0],
        };
        let (major, subtype) = split_initial_byte(initial);
        self.decode_depth = depth + 1;
        let value = match self.decode_major(major, subtype) {
            Err(e) => {
                self.give_up(depth, immutable);
                return Err(e);
            },
            Ok(v) => v,
        };
        self.decode_depth = depth;
        if depth == 0 {
            let mut table: Vec<SharedSlot> = Vec::new();
            std::mem::swap(&mut self.shareables, &mut table);
            self.last_shared = table;
            self.stringref_namespace = None;
            self.share_index = None;
            self.reader.rewind_excess();
            proof {
                assert(slot_models(self.shareables@) =~= Seq::<Slot>::empty());
            }
        }
        Ok(value)
    }

    /// Leaves a failed item: the depth is what it was before the item. At
    /// the top level both registries are emptied, no slot waits, and the
    /// context is what it was; the reader is left alone.
    fn give_up(&mut self, depth: usize, immutable: bool)
        requires
            depth <= old(self).max_depth,
        ensures
            final(self).reader == old(self).reader,
            final(self).max_depth == old(self).max_depth,
            final(self).str_errors == old(self).str_errors,
            final(self).tag_hook is None == old(self).tag_hook is None,
            final(self).object_hook is None == old(self).object_hook is None,
            final(self).decode_depth == depth,
            depth == 0 ==> final(self).state() == Self::given_up(
                DecodeState { immutable, ..old(self).state() },
            ),
    {
        self.decode_depth = depth;
        if depth == 0 {
            self.shareables = Vec::new();
            self.stringref_namespace = None;
            self.share_index = None;
            self.immutable = immutable;
            proof {
                assert(slot_models(self.shareables@) =~= Seq::<Slot>::empty());
            }
        }
    }

    /// Major type 0: an unsigned integer.
    pub fn decode_uint(&mut self, subtype: u8) -> (r: Result<Value, DecodeError>)
        requires
            old(self).wf(),
            subtype < 32,
        ensures
            final(self).wf(),
            final(self).same_setup(old(self)),
            r is Ok ==> final(self).reader.stream().len() <= old(self).reader.stream().len(),
            agrees(
                r,
                *final(self),
                parse_integer(old(self).reader.stream(), subtype, old(self).state(), false),
            ),
            r is Err ==> final(self).state() == old(self).state(),
    {
        match self.decode_length_finite(subtype) {
            Ok(n) => Ok(Value::Unsigned(n)),
            Err(e) => Err(e),
        }
    }

    /// Major type 1: the negative integer `-1 - n`.
    pub fn decode_negint(&mut self, subtype: u8) -> (r: Result<Value, DecodeError>)
        requires
            old(self).wf(),
            subtype < 32,
        ensures
            final(self).wf(),
            final(self).same_setup(old(self)),
            r is Ok ==> final(self).reader.stream().len() <= old(self).reader.stream().len(),
            agrees(
                r,
                *final(self),
                parse_integer(old(self).reader.stream(), subtype, old(self).state(), true),
            ),
            r is Err ==> final(self).state() == old(self).state(),
    {
        match self.decode_length_finite(subtype) {
            Ok(n) => Ok(Value::Negative(n)),
            Err(e) => Err(e),
        }
    }

    /// Major type 7: simple values, booleans, null, undefined, floats and
    /// the break.
    pub fn decode_special(&mut self, subtype: u8) -> (r: Result<Value, DecodeError>)
        requires
            old(self).wf(),
            subtype < 32,
        ensures
            final(self).wf(),
            final(self).same_setup(old(self)),
            r is Ok ==> final(self).reader.stream().len() <= old(self).reader.stream().len(),
            agrees(
                r,
                *final(self),
                parse_special(old(self).reader.stream(), subtype, old(self).state()),
            ),
            r is Err ==> final(self).state() == old(self).state(),
    {
        if subtype < 20 {
            Ok(Value::Simple(subtype))
        } else if subtype == 20 {
            Ok(Value::Bool(false))
        } else if subtype == 21 {
            Ok(Value::Bool(true))
        } else if subtype == 22 {
            Ok(Value::Null)
        } else if subtype == 23 {
            Ok(Value::Undefined)
        } else if subtype == 24 {
            match self.read_number(1) {
                Err(e) => Err(e),
                Ok(n) => {
                    proof {
                        crate::wire::lemma_be_value_bound(
                            old(self).reader.stream().take(1),
                        );
                        crate::wire::lemma_radix_values();
                    }
                    if 24 <= n && n < 32 {
                        Err(DecodeError::ReservedSimpleValue { value: n as u8 })
                    } else {
                        Ok(Value::Simple(n as u8))
                    }
                },
            }
        } else if subtype == 25 {
            match self.read_number(2) {
                Err(e) => Err(e),
                Ok(n) => {
                    proof {
                        crate::wire::lemma_be_value_bound(
                            old(self).reader.stream().take(2),
                        );
                        crate::wire::lemma_radix_values();
                    }
                    Ok(Value::Float(half_bits_to_double(n as u16)))
                },
            }
        } else if subtype == 26 {
            match self.read_number(4) {
                Err(e) => Err(e),
                Ok(n) => {
                    proof {
                        crate::wire::lemma_be_value_bound(
                            old(self).reader.stream().take(4),
                        );
                        crate::wire::lemma_radix_values();
                    }
                    Ok(Value::Float(single_bits_to_double(n as u32)))
                },
            }
        } else if subtype == 27 {
            match self.read_number(8) {
                Err(e) => Err(e),
                Ok(n) => Ok(Value::Float(n)),
            }
        } else if subtype == 31 {
            Ok(Value::Break)
        } else {
            Err(DecodeError::ReservedSpecial { subtype })
        }
    }
}

/// The chunks as sequences of bytes.
pub open spec fn chunk_views(chunks: Seq<Vec<u8>>) -> Seq<Seq<u8>> {
    Seq::new(chunks.len(), |i: int| chunks[i]@)
}

/// All the bytes of the chunks, in order.
pub fn join_chunks(chunks: &Vec<Vec<u8>>) -> (out: Vec<u8>)
    ensures
        out@ == joined(chunk_views(chunks@)),
{
    let mut out: Vec<u8> = Vec::new();
    let mut i: usize = 0;
    proof {
        assert(chunk_views(chunks@).take(0) =~= Seq::<Seq<u8>>::empty());
    }
    while i < chunks.len()
        invariant
            i <= chunks.len(),
            out@ == joined(chunk_views(chunks@).take(i as int)),
        decreases chunks.len() - i,
    {
        let ghost before = out@;
        let mut j: usize = 0;
        let chunk = &chunks[i];
        while j < chunk.len()
            invariant
                i < chunks.len(),
                chunk == chunks[i as int],
                j <= chunk.len(),
                out@ == before + chunk@.take(j as int),
            decreases chunk.len() - j,
        {
            out.push(chunk[j]);
            proof {
                let c = chunks[i as int]@;
                assert(c.take(j + 1) =~= c.take(j as int).push(c[j as int]));
                assert(before + c.take(j + 1) =~= (before + c.take(j as int)).push(c[j as int]));
            }
            j += 1;
        }
        proof {
            let all = chunk_views(chunks@);
            assert(chunks[i as int]@.take(j as int) =~= chunks[i as int]@);
            assert(all.take(i + 1).drop_last() =~= all.take(i as int));
            assert(all.take(i + 1).last() == chunks[i as int]@);
        }
        i += 1;
    }
    assert(chunk_views(chunks@).take(i as int) =~= chunk_views(chunks@));
    out
}

/// The length of all the chunks together, or the largest number where the
/// length is beyond it.
pub open spec fn capped(n: nat) -> usize {
    if n > usize::MAX {
        usize::MAX
    } else {
        n as usize
    }
}

/// The text of the chunks, each decoded by itself, with the number of
/// bytes decoded.
pub fn join_text(chunks: Vec<Vec<u8>>, policy: StrErrors) -> (r: Option<(String, usize)>)
    ensures
        match r {
            Some((text, size)) => joined_text(chunk_views(chunks@), policy) == Some(text@) && size
                == capped(joined(chunk_views(chunks@)).len()),
            None => joined_text(chunk_views(chunks@), policy) is None,
        },
{
    let mut out = String::new();
    let mut size: usize = 0;
    let mut i: usize = 0;
    let ghost all = chunk_views(chunks@);
    proof {
        assert(all.take(0) =~= Seq::<Seq<u8>>::empty());
    }
    while i < chunks.len()
        invariant
            i <= chunks.len(),
            all == chunk_views(chunks@),
            joined_text(all.take(i as int), policy) == Some(out@),
            size == capped(joined(all.take(i as int)).len()),
        decreases chunks.len() - i,
    {
        proof {
            assert(all.take(i + 1).drop_last() =~= all.take(i as int));
            assert(all.take(i + 1).last() == chunks[i as int]@);
        }
        let piece = copy_bytes(&chunks[i]);
        let n = piece.len();
        match decode_text(piece, policy) {
            None => {
                proof {
                    lemma_joined_text_fails(all, policy, i as int);
                }
                return None;
            },
            Some(text) => {
                out.append(text.as_str());
                size = if size > usize::MAX - n {
                    usize::MAX
                } else {
                    size + n
                };
            },
        }
        i += 1;
    }
    assert(all.take(i as int) =~= all);
    Some((out, size))
}

/// Where one chunk does not decode, the chunks together do not.
pub proof fn lemma_joined_text_fails(chunks: Seq<Seq<u8>>, policy: StrErrors, i: int)
    requires
        0 <= i < chunks.len(),
        text_of(chunks[i], policy) is None,
    ensures
        joined_text(chunks, policy) is None,
    decreases chunks.len(),
{
    if i < chunks.len() - 1 {
        lemma_joined_text_fails(chunks.drop_last(), policy, i);
    }
}

/// The index that a reference carries, where it is one that a table can
/// be asked for.
pub fn small_index(v: &Value) -> (r: Option<u64>)
    ensures
        r == reference_index(v@),
{
    match v {
        Value::Unsigned(n) => Some(*n),
        Value::BigUnsigned(b) => {
            let short = crate::collections::minimal_bytes(b);
            proof {
                crate::collections::lemma_minimal_twice(crate::wire::be_value(b@));
                crate::wire::lemma_be_value_bound(short@);
                crate::wire::lemma_radix_values();
                if short@.len() > 8 {
                    crate::wire::lemma_be_value_nonzero_lead_from_minimal(short@);
                    crate::wire::lemma_radix_monotone(8, (short@.len() - 1) as nat);
                } else {
                    crate::wire::lemma_radix_monotone(short@.len(), 8);
                }
            }
            if short.len() <= 8 {
                Some(crate::wire::be_to_u64(short.as_slice()))
            } else {
                None
            }
        },
        _ => None,
    }
}

/// What a map becomes when the object hook has seen it: what the hook
/// returned, or the failure of the hook.
pub fn finish_map_with_hook(outcome: Result<Value, DecodeError>) -> (r: Result<Value, DecodeError>)
    ensures
        match outcome {
            Ok(v) => r == Ok::<Value, DecodeError>(v),
            Err(_) => r == Err::<Value, DecodeError>(DecodeError::ObjectHookFailed),
        },
{
    match outcome {
        Ok(v) => Ok(v),
        Err(_) => Err(DecodeError::ObjectHookFailed),
    }
}

/// What a tag becomes when the tag hook has seen it: what the hook
/// returned, or the failure that the hook reported.
pub fn finish_tag_with_hook(outcome: Result<Value, DecodeError>) -> (r: Result<Value, DecodeError>)
    ensures
        r == outcome,
{
    outcome
}

} // verus!
