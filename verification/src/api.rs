//! The four entry points: decode from bytes or from a source, encode to
//! bytes or to a sink.

use crate::decoder::slot_models;
use crate::decoder::CBORDecoder;
use crate::decoder::NoHook;
use crate::decoder::ObjectHook;
use crate::decoder::SharedSlot;
use crate::decoder::TagHook;
use crate::decoder::DEFAULT_MAX_DEPTH;
use crate::decoder::DEFAULT_READ_SIZE;
use crate::emit::encode_document;
use crate::emit::EncodeState;
use crate::emit::Encoded;
use crate::encoder::CBOREncoder;
use crate::encoder::DefaultHook;
use crate::encoder::NoDefault;
use crate::errors::DecodeError;
use crate::errors::EncodeError;
use crate::parse::at_hook;
use crate::parse::initial_state;
use crate::parse::with_hooks;
use crate::parse::parse_body;
use crate::parse::parse_item;
use crate::parse::Parsed;
use crate::reader::ByteSource;
use crate::reader::SliceSource;
use crate::text::StrErrors;
use crate::value::Value;
use crate::writer::ByteSink;
use crate::writer::VecSink;
use vstd::prelude::*;

verus! {

/// A decoded item: its value, and the table of shared values that the
/// references in the value point into.
#[derive(Debug)]
pub struct Decoded {
    pub value: Value,
    pub shared: Vec<SharedSlot>,
}

/// Why decoding did not begin or did not end well.
#[derive(Clone, Copy, PartialEq, Eq, Structural, Debug)]
pub enum LoadError {
    /// The name given is not the name of a policy for invalid UTF-8.
    InvalidStrErrors,
    /// The bytes could not be decoded.
    Decode(DecodeError),
}

/// Whether what was loaded is what the model says of the bytes: the value
/// that the bytes begin with and the table of shared values behind it, or
/// the failure. Where the model stopped at a hook, the outcome is the
/// hook's to decide.
pub open spec fn loaded(
    r: Result<Decoded, LoadError>,
    input: Seq<u8>,
    policy: Option<StrErrors>,
    max_depth: usize,
    tag_hook: bool,
    object_hook: bool,
) -> bool {
    match policy {
        None => r == Err::<Decoded, LoadError>(LoadError::InvalidStrErrors),
        Some(p) => {
            let start = with_hooks(initial_state(p, max_depth), tag_hook, object_hook);
            match parse_item(input, start) {
                Parsed::Done { value, rest, state } => r matches Ok(d) && d.value@ == value
                    && slot_models(d.shared@) == parse_body(input, start)->state.shareables,
                Parsed::Failed(f) => if at_hook(start, f) {
                    !(r matches Err(LoadError::InvalidStrErrors))
                } else {
                    r matches Err(LoadError::Decode(e)) && e.same_as(f)
                },
            }
        },
    }
}

/// Decodes one item from bytes, with hooks.
pub fn loads_with<T: TagHook, O: ObjectHook>(
    data: Vec<u8>,
    tag_hook: Option<T>,
    object_hook: Option<O>,
    str_errors: &str,
    max_depth: usize,
) -> (r: Result<Decoded, LoadError>)
    ensures
        loaded(
            r,
            data@,
            StrErrors::named(str_errors@),
            max_depth,
            tag_hook is Some,
            object_hook is Some,
        ),
{
    let mut decoder: CBORDecoder<SliceSource, T, O> = match CBORDecoder::new_internal(
        None,
        Some(data),
        tag_hook,
        object_hook,
        str_errors,
        DEFAULT_READ_SIZE,
        max_depth,
    ) {
        Err(_) => {
            return Err(LoadError::InvalidStrErrors);
        },
        Ok(d) => d,
    };
    proof {
        crate::parse_lemmas::lemma_parse_item(decoder.reader.stream(), decoder.state());
    }
    match decoder.decode() {
        Err(e) => Err(LoadError::Decode(e)),
        Ok(value) => Ok(Decoded { value, shared: decoder.last_shared }),
    }
}

/// Decodes one item from bytes: the value that the bytes begin with.
pub fn loads(data: Vec<u8>, str_errors: &str) -> (r: Result<Decoded, LoadError>)
    ensures
        loaded(r, data@, StrErrors::named(str_errors@), DEFAULT_MAX_DEPTH, false, false),
{
    loads_with::<NoHook, NoHook>(data, None, None, str_errors, DEFAULT_MAX_DEPTH)
}

/// Decodes one item from a source, with hooks. The source is handed back
/// with the item; what it has yet to hand out is what follows the item.
pub fn load<S: ByteSource, T: TagHook, O: ObjectHook>(
    fp: S,
    tag_hook: Option<T>,
    object_hook: Option<O>,
    str_errors: &str,
) -> (r: Result<(Decoded, Option<S>), LoadError>)
    requires
        fp.position() <= fp.content().len(),
    ensures
        match StrErrors::named(str_errors@) {
            None => r == Err::<(Decoded, Option<S>), LoadError>(LoadError::InvalidStrErrors),
            Some(p) => {
                let input = fp.content().skip(fp.position() as int);
                let start = with_hooks(
                    initial_state(p, DEFAULT_MAX_DEPTH),
                    tag_hook is Some,
                    object_hook is Some,
                );
                match parse_item(input, start) {
                    Parsed::Done { value, rest, state } => r matches Ok((d, Some(s))) && d.value@
                        == value && slot_models(d.shared@) == parse_body(
                        input,
                        start,
                    )->state.shareables && s.position() <= s.content().len() && s.content().skip(
                        s.position() as int,
                    ) == rest,
                    Parsed::Failed(f) => if at_hook(start, f) {
                        !(r matches Err(LoadError::InvalidStrErrors))
                    } else {
                        r matches Err(LoadError::Decode(e)) && e.same_as(f)
                    },
                }
            },
        },
{
    let mut decoder: CBORDecoder<S, T, O> = match CBORDecoder::new(
        fp,
        tag_hook,
        object_hook,
        str_errors,
        DEFAULT_READ_SIZE,
        DEFAULT_MAX_DEPTH,
    ) {
        Err(_) => {
            return Err(LoadError::InvalidStrErrors);
        },
        Ok(d) => d,
    };
    proof {
        crate::parse_lemmas::lemma_parse_item(decoder.reader.stream(), decoder.state());
    }
    match decoder.decode() {
        Err(e) => Err(LoadError::Decode(e)),
        Ok(value) => {
            proof {
                let s = decoder.reader.source->0;
                assert(decoder.reader.buffered() =~= Seq::<u8>::empty());
                assert(decoder.reader.stream() =~= s.content().skip(s.position() as int));
            }
            Ok((Decoded { value, shared: decoder.last_shared }, decoder.reader.source))
        },
    }
}

/// The state in which an encoder with these options and without a
/// fallback begins.
pub open spec fn initial_options(
    datetime_as_timestamp: bool,
    timezone: bool,
    value_sharing: bool,
    canonical: bool,
    date_as_datetime: bool,
    string_referencing: bool,
    indefinite_containers: bool,
) -> EncodeState {
    EncodeState {
        value_sharing,
        canonical,
        string_referencing,
        string_namespacing: string_referencing,
        indefinite_containers,
        datetime_as_timestamp,
        date_as_datetime,
        timezone,
        marks: Seq::empty(),
        next_index: 0,
        strings: Seq::empty(),
        fallback: false,
    }
}

/// A state with the fallback that waits.
pub open spec fn with_fallback(st: EncodeState, fallback: bool) -> EncodeState {
    EncodeState { fallback, ..st }
}

/// Encodes a value to bytes. `shared` is the table that the references in
/// the value point into.
pub fn dumps(
    obj: &Value,
    shared: &Vec<SharedSlot>,
    datetime_as_timestamp: bool,
    timezone: bool,
    value_sharing: bool,
    canonical: bool,
    date_as_datetime: bool,
    string_referencing: bool,
    indefinite_containers: bool,
) -> (r: Result<Vec<u8>, EncodeError>)
    ensures
        match (
            r,
            encode_document(
                slot_models(shared@),
                obj@,
                initial_options(
                    datetime_as_timestamp,
                    timezone,
                    value_sharing,
                    canonical,
                    date_as_datetime,
                    string_referencing,
                    indefinite_containers,
                ),
            ),
        ) {
            (Ok(out), Encoded::Done { bytes, state }) => out@ == bytes,
            (Err(e), Encoded::Failed(f)) => e@ == f,
            _ => false,
        },
{
    let mut encoder: CBOREncoder<VecSink, NoDefault> = CBOREncoder::new_internal(
        None,
        datetime_as_timestamp,
        timezone,
        value_sharing,
        None,
        canonical,
        date_as_datetime,
        string_referencing,
        indefinite_containers,
    );
    proof {
        assert(encoder.writer.buffer@ =~= Seq::<u8>::empty());
    }
    match encoder.encode(shared, obj) {
        Err(e) => Err(e),
        Ok(_) => {
            proof {
                let bytes = encode_document(slot_models(shared@), obj@, encoder.state())->bytes;
                assert(Seq::<u8>::empty() + bytes =~= bytes);
            }
            Ok(encoder.writer.buffer)
        },
    }
}

/// Encodes a value to a sink, with a fallback for values that have no
/// encoding. The sink is handed back.
pub fn dump<W: ByteSink, D: DefaultHook>(
    obj: &Value,
    shared: &Vec<SharedSlot>,
    fp: W,
    datetime_as_timestamp: bool,
    timezone: bool,
    value_sharing: bool,
    default: Option<D>,
    canonical: bool,
    date_as_datetime: bool,
    string_referencing: bool,
    indefinite_containers: bool,
) -> (r: (Result<(), EncodeError>, Option<W>))
    ensures
        match (
            r.0,
            encode_document(
                slot_models(shared@),
                obj@,
                with_fallback(
                    initial_options(
                        datetime_as_timestamp,
                        timezone,
                        value_sharing,
                        canonical,
                        date_as_datetime,
                        string_referencing,
                        indefinite_containers,
                    ),
                    default is Some,
                ),
            ),
        ) {
            (Ok(_), Encoded::Done { bytes, state }) => r.1 matches Some(w) && w.written()
                == fp.written() + bytes,
            (Err(e), Encoded::Failed(f)) => (default is Some && f is DefaultHookFailed) || e@ == f,
            (Ok(_), Encoded::Failed(f)) => default is Some && f is DefaultHookFailed,
            _ => false,
        },
{
    let mut encoder: CBOREncoder<W, D> = CBOREncoder::new(
        fp,
        datetime_as_timestamp,
        timezone,
        value_sharing,
        default,
        canonical,
        date_as_datetime,
        string_referencing,
        indefinite_containers,
    );
    proof {
        assert(encoder.writer.output() =~= fp.written());
    }
    let result = encoder.encode(shared, obj);
    proof {
        if result is Ok {
            assert(encoder.writer.output() =~= encoder.writer.sink->0.written());
        }
    }
    (result, encoder.writer.sink)
}

} // verus!
