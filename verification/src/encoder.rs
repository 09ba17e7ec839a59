//! The encoder: writes values to a buffered writer, keeping track of the
//! shared values it has met and of the strings that references may name.

use crate::collections::integer_parts;
use crate::emit::after;
use crate::emit::at_fallback;
use crate::emit::before;
use crate::emit::float_bytes;
use crate::emit::integer_bytes;
use crate::emit::position;
use crate::emit::simple_bytes;
use crate::emit::string_bytes;
use crate::emit::unseen;
use crate::emit::EncodeState;
use crate::emit::Encoded;
use crate::emit::Keyed;
use crate::emit::Mark;
use crate::errors::EncodeError;
use crate::floats::bits_are_infinite;
use crate::floats::bits_are_nan;
use crate::floats::bits_are_negative;
use crate::floats::narrow_bits;
use crate::floats::Precision;
use crate::value::lemma_models_push;
use crate::value::models;
use crate::value::Item;
use crate::value::Value;
use crate::wire::head;
use crate::wire::indefinite_head;
use crate::wire::length_head;
use crate::wire::lemma_radix_values;
use crate::wire::u64_to_be;
use crate::writer::ByteSink;
use crate::writer::Writer;
use crate::errors::EncodeFault;
use vstd::prelude::*;

verus! {

/// Called with the name of the type of a value that the encoder has no
/// encoding for; the bytes it returns are written in place of the value.
pub trait DefaultHook {
    fn call(&mut self, kind: &String) -> Result<Vec<u8>, EncodeError>;
}

/// The fallback of an encoder without one: it has no bytes for any value,
/// as the encoder itself has none where no fallback is set.
pub struct NoDefault;

impl DefaultHook for NoDefault {
    /// The failure of a value without encoding, with the name of its type.
    fn call(&mut self, kind: &String) -> (r: Result<Vec<u8>, EncodeError>)
        ensures
            r matches Err(e) && e@ == (EncodeFault::UnsupportedType { name: kind@ }),
    {
        Err(EncodeError::UnsupportedType { name: kind.clone() })
    }
}

/// What the encoder knows of one entry of the table of shared values.
#[derive(Clone, Copy, Debug)]
pub enum ShareMark {
    /// Not met so far.
    Unseen,
    /// Being encoded right now, and value sharing is off.
    Active,
    /// Written with a shareable marker; the number is the index that
    /// references to it carry.
    Indexed(u64),
}

/// The model of a mark.
pub open spec fn mark_model(mark: ShareMark) -> Mark {
    match mark {
        ShareMark::Unseen => Mark::Unseen,
        ShareMark::Active => Mark::Active,
        ShareMark::Indexed(n) => Mark::Indexed(n),
    }
}

/// The models of the marks.
pub open spec fn mark_models(marks: Seq<ShareMark>) -> Seq<Mark> {
    Seq::new(marks.len(), |i: int| mark_model(marks[i]))
}

/// The encoder.
pub struct CBOREncoder<W: ByteSink, D: DefaultHook> {
    pub writer: Writer<W>,
    pub datetime_as_timestamp: bool,
    /// Whether a default time zone is set.
    pub timezone: bool,
    pub value_sharing: bool,
    pub default: Option<D>,
    pub canonical: bool,
    pub date_as_datetime: bool,
    pub string_referencing: bool,
    pub string_namespacing: bool,
    pub indefinite_containers: bool,
    pub marks: Vec<ShareMark>,
    pub next_index: u64,
    pub strings: Vec<Value>,
    pub encode_depth: usize,
}

/// Whether what the encoder did agrees with what the model says: the
/// model's bytes were appended and the state is the model's, or the failure
/// is the model's. Where the model stopped at the fallback, the outcome is
/// the fallback's to decide and nothing is asked of it.
pub open spec fn wrote<W: ByteSink, D: DefaultHook>(
    r: Result<(), EncodeError>,
    start: CBOREncoder<W, D>,
    end: CBOREncoder<W, D>,
    expected: Encoded,
) -> bool {
    match (r, expected) {
        (Ok(_), Encoded::Done { bytes, state }) => end.writer.output() == start.writer.output()
            + bytes && end.state() == state,
        (Err(e), Encoded::Failed(f)) => at_fallback(start.state(), f) || e@ == f,
        (Ok(_), Encoded::Failed(f)) => at_fallback(start.state(), f),
        _ => false,
    }
}

impl<W: ByteSink, D: DefaultHook> CBOREncoder<W, D> {
    /// The state of the encoder as the model sees it.
    pub open spec fn state(&self) -> EncodeState {
        EncodeState {
            value_sharing: self.value_sharing,
            canonical: self.canonical,
            string_referencing: self.string_referencing,
            string_namespacing: self.string_namespacing,
            indefinite_containers: self.indefinite_containers,
            datetime_as_timestamp: self.datetime_as_timestamp,
            date_as_datetime: self.date_as_datetime,
            timezone: self.timezone,
            marks: mark_models(self.marks@),
            next_index: self.next_index,
            strings: models(self.strings@),
            fallback: self.default is Some,
        }
    }

    /// What a call may not change: the sink's presence, the fallback's
    /// presence, the depth, and the options but for the two that say how
    /// strings are written.
    pub open spec fn same_setup(&self, other: &Self) -> bool {
        &&& self.writer.sink is Some == other.writer.sink is Some
        &&& self.default is None == other.default is None
        &&& self.encode_depth == other.encode_depth
        &&& self.value_sharing == other.value_sharing
        &&& self.canonical == other.canonical
        &&& self.indefinite_containers == other.indefinite_containers
        &&& self.datetime_as_timestamp == other.datetime_as_timestamp
        &&& self.date_as_datetime == other.date_as_datetime
        &&& self.timezone == other.timezone
    }

    /// An encoder in front of a sink, or one that gathers the bytes in
    /// memory where no sink is given. String namespacing is on exactly if
    /// string referencing is.
    pub fn new_internal(
        fp: Option<W>,
        datetime_as_timestamp: bool,
        timezone: bool,
        value_sharing: bool,
        default: Option<D>,
        canonical: bool,
        date_as_datetime: bool,
        string_referencing: bool,
        indefinite_containers: bool,
    ) -> (e: Self)
        ensures
            e.writer.wf(),
            e.writer.sink == fp,
            e.writer.buffer@.len() == 0,
            e.default == default,
            e.encode_depth == 0,
            e.state() == (EncodeState {
                value_sharing,
                canonical,
                string_referencing,
                string_namespacing: string_referencing,
                indefinite_containers,
                datetime_as_timestamp,
                date_as_datetime,
                timezone,
                marks: Seq::empty(),
                next_index: 0,
                strings: Seq::empty(),
                fallback: default is Some,
            }),
    {
        let writer = match fp {
            Some(sink) => Writer::to_sink(sink),
            None => Writer::to_memory(),
        };
        let e = CBOREncoder {
            writer,
            datetime_as_timestamp,
            timezone,
            value_sharing,
            default,
            canonical,
            date_as_datetime,
            string_referencing,
            string_namespacing: string_referencing,
            indefinite_containers,
            marks: Vec::new(),
            next_index: 0,
            strings: Vec::new(),
            encode_depth: 0,
        };
        proof {
            assert(e.state().marks =~= Seq::<Mark>::empty());
            assert(e.state().strings =~= Seq::<Item>::empty());
        }
        e
    }

    /// An encoder in front of a sink.
    pub fn new(
        fp: W,
        datetime_as_timestamp: bool,
        timezone: bool,
        value_sharing: bool,
        default: Option<D>,
        canonical: bool,
        date_as_datetime: bool,
        string_referencing: bool,
        indefinite_containers: bool,
    ) -> (e: Self)
        ensures
            e.writer.wf(),
            e.writer.sink == Some(fp),
            e.writer.buffer@.len() == 0,
            e.default == default,
            e.encode_depth == 0,
            e.state() == (EncodeState {
                value_sharing,
                canonical,
                string_referencing,
                string_namespacing: string_referencing,
                indefinite_containers,
                datetime_as_timestamp,
                date_as_datetime,
                timezone,
                marks: Seq::empty(),
                next_index: 0,
                strings: Seq::empty(),
                fallback: default is Some,
            }),
    {
        Self::new_internal(
            Some(fp),
            datetime_as_timestamp,
            timezone,
            value_sharing,
            default,
            canonical,
            date_as_datetime,
            string_referencing,
            indefinite_containers,
        )
    }

    /// Hands what the buffer holds to the sink. Without a sink the buffer
    /// stays.
    pub fn flush(&mut self)
        ensures
            final(self).writer.wf(),
            final(self).same_setup(old(self)),
            final(self).marks@.len() == old(self).marks@.len(),
            final(self).state() == old(self).state(),
            final(self).writer.output() == old(self).writer.output(),
            final(self).writer.sink is Some ==> final(self).writer.buffer@.len() == 0,
            final(self).writer.sink is None ==> final(self).writer.buffer == old(self).writer.buffer,
    {
        self.writer.flush();
    }

    /// Writes bytes straight to the sink, behind what the buffer held;
    /// fails where there is no sink.
    pub fn write(&mut self, buf: &[u8]) -> (r: Result<(), EncodeError>)
        ensures
            final(self).writer.wf(),
            final(self).same_setup(old(self)),
            final(self).marks@.len() == old(self).marks@.len(),
            final(self).state() == old(self).state(),
            r is Ok <==> old(self).writer.sink is Some,
            r is Ok ==> final(self).writer.output() == old(self).writer.output() + buf@
                && final(self).writer.buffer@.len() == 0,
            r is Err ==> final(self).writer == old(self).writer,
    {
        if self.writer.sink.is_none() {
            return Err(EncodeError::WriteFailed);
        }
        self.writer.flush();
        let ghost middle = self.writer;
        match &mut self.writer.sink {
            None => {},
            Some(sink) => {
                sink.write(buf);
            },
        }
        proof {
            assert(middle.output() =~= middle.sink->0.written());
            assert(self.writer.output() =~= old(self).writer.output() + buf@);
        }
        Ok(())
    }

    /// Writes the header of major type `major` with a length, or the
    /// header of an indefinite length where there is none.
    pub fn encode_length(&mut self, major: u8, length: Option<u64>)
        requires
            major < 8,
            old(self).writer.wf(),
        ensures
            final(self).writer.wf(),
            final(self).same_setup(old(self)),
            final(self).marks@.len() == old(self).marks@.len(),
            final(self).state() == old(self).state(),
            final(self).marks == old(self).marks,
            final(self).writer.output() == old(self).writer.output() + length_head(major, length),
    {
        let high: u8 = major * 32;
        proof {
            lemma_radix_values();
        }
        match length {
            None => {
                self.writer.write_byte(high + 31);
                assert(old(self).writer.output().push((high + 31) as u8) =~= old(self).writer.output() + indefinite_head(major));
            },
            Some(n) => {
                if n < 24 {
                    self.writer.write_byte(high + n as u8);
                    assert(old(self).writer.output().push((high + n) as u8) =~= old(self).writer.output() + head(major, n as nat));
                } else {
                    let (subtype, width): (u8, usize) = if n < 0x100 {
                        (24, 1)
                    } else if n < 0x1_0000 {
                        (25, 2)
                    } else if n < 0x1_0000_0000 {
                        (26, 4)
                    } else {
                        (27, 8)
                    };
                    self.writer.write_byte(high + subtype);
                    let field = u64_to_be(n, width);
                    self.writer.write(field.as_slice());
                    assert(old(self).writer.output().push((high + subtype) as u8) + field@ =~= old(self).writer.output() + head(major, n as nat));
                }
            },
        }
    }

    /// Writes bytes as they are.
    pub(crate) fn put(&mut self, bytes: &[u8])
        requires
            old(self).writer.wf(),
        ensures
            final(self).writer.wf(),
            final(self).same_setup(old(self)),
            final(self).marks@.len() == old(self).marks@.len(),
            final(self).state() == old(self).state(),
            final(self).marks == old(self).marks,
            final(self).writer.output() == old(self).writer.output() + bytes@,
    {
        self.writer.write(bytes);
    }

    /// What becomes of a value when the fallback has seen it: the bytes
    /// that the fallback returned are written, or the failure of the
    /// fallback is reported and nothing is written.
    pub fn write_fallback(&mut self, outcome: Result<Vec<u8>, EncodeError>) -> (r: Result<
        (),
        EncodeError,
    >)
        requires
            old(self).writer.wf(),
        ensures
            final(self).writer.wf(),
            final(self).same_setup(old(self)),
            final(self).marks@.len() == old(self).marks@.len(),
            final(self).state() == old(self).state(),
            final(self).marks == old(self).marks,
            match outcome {
                Ok(bytes) => r is Ok && final(self).writer.output() == old(self).writer.output()
                    + bytes@,
                Err(_) => r == Err::<(), EncodeError>(EncodeError::DefaultHookFailed)
                    && final(self).writer.output() == old(self).writer.output(),
            },
    {
        match outcome {
            Err(_) => Err(EncodeError::DefaultHookFailed),
            Ok(bytes) => {
                self.put(bytes.as_slice());
                Ok(())
            },
        }
    }

    /// Writes one byte as it is.
    pub(crate) fn put_byte(&mut self, byte: u8)
        requires
            old(self).writer.wf(),
        ensures
            final(self).writer.wf(),
            final(self).same_setup(old(self)),
            final(self).marks@.len() == old(self).marks@.len(),
            final(self).state() == old(self).state(),
            final(self).marks == old(self).marks,
            final(self).writer.output() == old(self).writer.output() + seq![byte],
    {
        self.writer.write_byte(byte);
        assert(old(self).writer.output().push(byte) =~= old(self).writer.output() + seq![byte]);
    }

    /// Looks a string up in the table of strings that references may name.
    pub(crate) fn find_string(&self, string: &Value) -> (r: Option<usize>)
        ensures
            match r {
                Some(i) => position(models(self.strings@), string@) == Some(i as int),
                None => position(models(self.strings@), string@) is None,
            },
    {
        let ghost all = models(self.strings@);
        let mut i: usize = 0;
        while i < self.strings.len()
            invariant
                i <= self.strings.len(),
                all == models(self.strings@),
                forall|j: int| 0 <= j < i ==> all[j] != string@,
            decreases self.strings.len() - i,
        {
            if self.strings[i].equals(string) {
                proof {
                    lemma_position(all, string@, i as int);
                }
                return Some(i);
            }
            i += 1;
        }
        proof {
            lemma_position(all, string@, i as int);
        }
        None
    }

    /// Writes a byte or text string with its payload: a reference where
    /// string referencing is on and the string has an index; otherwise
    /// header and payload, and the string gets the next index if string
    /// referencing is on and the payload is long enough.
    pub(crate) fn encode_payload(&mut self, string: &Value, major: u8, payload: &[u8])
        requires
            old(self).writer.wf(),
            major < 8,
        ensures
            final(self).writer.wf(),
            final(self).same_setup(old(self)),
            final(self).marks@.len() == old(self).marks@.len(),
            final(self).marks == old(self).marks,
            wrote(
                Ok(()),
                *old(self),
                *final(self),
                string_bytes(string@, major, payload@, old(self).state()),
            ),
    {
        let ghost start = self.writer.output();
        if self.string_referencing {
            match self.find_string(string) {
                Some(i) => {
                    self.encode_length(6, Some(25));
                    self.encode_length(0, Some(i as u64));
                    assert(start + head(6, 25) + head(0, i as nat) =~= start + (head(6, 25) + head(
                        0,
                        i as nat,
                    )));
                    return ;
                },
                None => {
                    let count = self.strings.len();
                    let threshold: usize = if count < 24 {
                        3
                    } else if count < 256 {
                        4
                    } else if count < 65536 {
                        5
                    } else if count as u64 <= 0xffff_ffff {
                        6
                    } else {
                        11
                    };
                    if payload.len() >= threshold {
                        let copy = string.duplicate();
                        proof {
                            lemma_models_push(self.strings@, copy);
                        }
                        self.strings.push(copy);
                    }
                },
            }
        }
        self.encode_length(major, Some(payload.len() as u64));
        self.put(payload);
        assert(start + head(major, payload@.len()) + payload@ =~= start + (head(
            major,
            payload@.len(),
        ) + payload@));
    }

    /// Writes a text string.
    pub fn encode_string(&mut self, string: &Value)
        requires
            old(self).writer.wf(),
            string is Text,
        ensures
            final(self).writer.wf(),
            final(self).same_setup(old(self)),
            final(self).marks@.len() == old(self).marks@.len(),
            final(self).marks == old(self).marks,
            wrote(
                Ok(()),
                *old(self),
                *final(self),
                string_bytes(
                    string@,
                    3,
                    vstd::utf8::encode_utf8(string@->Text_0),
                    old(self).state(),
                ),
            ),
    {
        match string {
            Value::Text(s) => {
                let payload = s.as_str().as_bytes();
                self.encode_payload(string, 3, payload);
            },
            _ => {},
        }
    }

    /// Writes a byte string.
    pub fn encode_bytes(&mut self, string: &Value)
        requires
            old(self).writer.wf(),
            string is Bytes,
        ensures
            final(self).writer.wf(),
            final(self).same_setup(old(self)),
            final(self).marks@.len() == old(self).marks@.len(),
            final(self).marks == old(self).marks,
            wrote(
                Ok(()),
                *old(self),
                *final(self),
                string_bytes(string@, 2, string@->Bytes_0, old(self).state()),
            ),
    {
        match string {
            Value::Bytes(b) => {
                self.encode_payload(string, 2, b.as_slice());
            },
            _ => {},
        }
    }

    /// Writes bytes that the program may still change: as a byte string,
    /// without a part in string referencing.
    pub fn encode_bytearray(&mut self, bytes: &Vec<u8>)
        requires
            old(self).writer.wf(),
        ensures
            final(self).writer.wf(),
            final(self).same_setup(old(self)),
            final(self).marks@.len() == old(self).marks@.len(),
            final(self).marks == old(self).marks,
            final(self).state() == old(self).state(),
            final(self).writer.output() == old(self).writer.output() + (head(2, bytes@.len())
                + bytes@),
    {
        let ghost start = self.writer.output();
        self.encode_length(2, Some(bytes.len() as u64));
        self.put(bytes.as_slice());
        assert(start + head(2, bytes@.len()) + bytes@ =~= start + (head(2, bytes@.len())
            + bytes@));
    }

    /// Writes an integer of any size: in the length field of major type 0
    /// or 1 below 2^64, and from there on as tag 2 or 3 around the shortest
    /// big-endian bytes.
    pub fn encode_int(&mut self, value: &Value)
        requires
            old(self).writer.wf(),
            value@ is Unsigned || value@ is Negative,
        ensures
            final(self).writer.wf(),
            final(self).same_setup(old(self)),
            final(self).marks@.len() == old(self).marks@.len(),
            final(self).marks == old(self).marks,
            value@ matches Item::Unsigned(n) ==> wrote(
                Ok(()),
                *old(self),
                *final(self),
                integer_bytes(n, false, old(self).state()),
            ),
            value@ matches Item::Negative(n) ==> wrote(
                Ok(()),
                *old(self),
                *final(self),
                integer_bytes(n, true, old(self).state()),
            ),
    {
        let ghost start = self.writer.output();
        match integer_parts(value) {
            None => {},
            Some((negative, bytes)) => {
                proof {
                    crate::wire::lemma_be_value_bound(bytes@);
                    lemma_radix_values();
                    if bytes@.len() > 8 {
                        crate::wire::lemma_be_value_nonzero_lead_from_minimal(bytes@);
                        crate::wire::lemma_radix_monotone(8, (bytes@.len() - 1) as nat);
                    } else {
                        crate::wire::lemma_radix_monotone(bytes@.len(), 8);
                    }
                }
                if bytes.len() <= 8 {
                    let n = crate::wire::be_to_u64(bytes.as_slice());
                    self.encode_length(
                        if negative {
                            1
                        } else {
                            0
                        },
                        Some(n),
                    );
                } else {
                    self.encode_length(
                        6,
                        Some(
                            if negative {
                                3
                            } else {
                                2
                            },
                        ),
                    );
                    let ghost middle = self.writer.output();
                    let payload = Value::Bytes(bytes);
                    match &payload {
                        Value::Bytes(b) => {
                            self.encode_payload(&payload, 2, b.as_slice());
                        },
                        _ => {},
                    }
                    proof {
                        let r = string_bytes(payload@, 2, bytes@, old(self).state());
                        assert(start + head(
                            6,
                            if negative {
                                3
                            } else {
                                2
                            },
                        ) + r->bytes =~= start + (head(
                            6,
                            if negative {
                                3
                            } else {
                                2
                            },
                        ) + r->bytes));
                    }
                }
            },
        }
    }

    /// Writes `true` or `false`.
    pub fn encode_bool(&mut self, value: bool)
        requires
            old(self).writer.wf(),
        ensures
            final(self).writer.wf(),
            final(self).same_setup(old(self)),
            final(self).marks@.len() == old(self).marks@.len(),
            final(self).marks == old(self).marks,
            final(self).state() == old(self).state(),
            final(self).writer.output() == old(self).writer.output() + seq![
                if value {
                    0xf5u8
                } else {
                    0xf4u8
                },
            ],
    {
        self.put_byte(
            if value {
                0xf5
            } else {
                0xf4
            },
        );
    }

    /// Writes null.
    pub fn encode_none(&mut self)
        requires
            old(self).writer.wf(),
        ensures
            final(self).writer.wf(),
            final(self).same_setup(old(self)),
            final(self).marks@.len() == old(self).marks@.len(),
            final(self).marks == old(self).marks,
            final(self).state() == old(self).state(),
            final(self).writer.output() == old(self).writer.output() + seq![0xf6u8],
    {
        self.put_byte(0xf6);
    }

    /// Writes `undefined`.
    pub fn encode_undefined(&mut self)
        requires
            old(self).writer.wf(),
        ensures
            final(self).writer.wf(),
            final(self).same_setup(old(self)),
            final(self).marks@.len() == old(self).marks@.len(),
            final(self).marks == old(self).marks,
            final(self).state() == old(self).state(),
            final(self).writer.output() == old(self).writer.output() + seq![0xf7u8],
    {
        self.put_byte(0xf7);
    }

    /// Writes the break that ends an item of indefinite length.
    pub fn encode_break(&mut self)
        requires
            old(self).writer.wf(),
        ensures
            final(self).writer.wf(),
            final(self).same_setup(old(self)),
            final(self).marks@.len() == old(self).marks@.len(),
            final(self).marks == old(self).marks,
            final(self).state() == old(self).state(),
            final(self).writer.output() == old(self).writer.output() + seq![0xffu8],
    {
        self.put_byte(0xff);
    }

    /// Writes a simple value; fails for a number in the reserved range.
    pub fn encode_simple_value(&mut self, value: u8) -> (r: Result<(), EncodeError>)
        requires
            old(self).writer.wf(),
        ensures
            final(self).writer.wf(),
            final(self).same_setup(old(self)),
            final(self).marks@.len() == old(self).marks@.len(),
            final(self).marks == old(self).marks,
            final(self).state() == old(self).state(),
            r is Err <==> 24 <= value < 32,
            r matches Err(e) ==> e == EncodeError::InvalidContent,
            r is Ok ==> final(self).writer.output() == old(self).writer.output() + simple_bytes(
                value,
            ),
    {
        if 24 <= value && value < 32 {
            Err(EncodeError::InvalidContent)
        } else if value < 24 {
            self.put_byte(0xe0 + value);
            Ok(())
        } else {
            self.put_byte(0xf8);
            self.put_byte(value);
            assert(old(self).writer.output() + seq![0xf8u8] + seq![value] =~= old(self).writer.output() + simple_bytes(value));
            Ok(())
        }
    }

    /// Writes a floating-point number given by the bits of its double.
    pub fn encode_float(&mut self, bits: u64)
        requires
            old(self).writer.wf(),
        ensures
            final(self).writer.wf(),
            final(self).same_setup(old(self)),
            final(self).marks@.len() == old(self).marks@.len(),
            final(self).marks == old(self).marks,
            final(self).state() == old(self).state(),
            final(self).writer.output() == old(self).writer.output() + float_bytes(
                bits,
                old(self).canonical,
            ),
    {
        let ghost start = self.writer.output();
        proof {
            reveal(float_bytes);
        }
        if bits_are_nan(bits) {
            self.put_byte(0xf9);
            self.put_byte(0x7e);
            self.put_byte(0x00);
            assert(start + seq![0xf9u8] + seq![0x7eu8] + seq![0x00u8] =~= start + seq![
                0xf9u8,
                0x7e,
                0x00,
            ]);
            return ;
        }
        if bits_are_infinite(bits) {
            let middle: u8 = if bits_are_negative(bits) {
                0xfc
            } else {
                0x7c
            };
            self.put_byte(0xf9);
            self.put_byte(middle);
            self.put_byte(0x00);
            assert(start + seq![0xf9u8] + seq![middle] + seq![0x00u8] =~= start + seq![
                0xf9u8,
                middle,
                0x00,
            ]);
            return ;
        }
        if self.canonical {
            match narrow_bits(Precision::Half, bits) {
                Some(h) => {
                    self.put_byte(0xf9);
                    let field = u64_to_be(h, 2);
                    self.put(field.as_slice());
                    assert(start + seq![0xf9u8] + field@ =~= start + (seq![0xf9u8] + field@));
                    return ;
                },
                None => {},
            }
            match narrow_bits(Precision::Single, bits) {
                Some(s) => {
                    self.put_byte(0xfa);
                    let field = u64_to_be(s, 4);
                    self.put(field.as_slice());
                    assert(start + seq![0xfau8] + field@ =~= start + (seq![0xfau8] + field@));
                    return ;
                },
                None => {},
            }
        }
        self.put_byte(0xfb);
        let field = u64_to_be(bits, 8);
        self.put(field.as_slice());
        assert(start + seq![0xfbu8] + field@ =~= start + (seq![0xfbu8] + field@));
    }
}

/// Where no item before place `i` is `x` and the one at `i` is, the
/// position of `x` is `i`; where none is, there is no position.
pub proof fn lemma_position(items: Seq<Item>, x: Item, i: int)
    requires
        0 <= i <= items.len(),
        forall|j: int| 0 <= j < i ==> items[j] != x,
        i < items.len() ==> items[i] == x,
    ensures
        position(items, x) == if i < items.len() {
            Some(i)
        } else {
            None
        },
    decreases items.len(),
{
    if items.len() > 0 {
        let front = items.drop_last();
        if i < items.len() - 1 {
            lemma_position(front, x, i);
        } else {
            lemma_position(front, x, front.len() as int);
        }
    }
}

/// The places as numbers.
pub open spec fn places(order: Seq<usize>) -> Seq<int> {
    Seq::new(order.len(), |i: int| order[i] as int)
}

/// The keys with `front` put before them.
pub open spec fn keyed_after(front: Seq<Seq<u8>>, r: Keyed) -> Keyed {
    match r {
        Keyed::Done { keys, state } => Keyed::Done { keys: front + keys, state },
        Keyed::Failed(e) => Keyed::Failed(e),
    }
}

/// Setting one mark changes the number of unseen marks by at most one,
/// and by what the old and the new mark say.
pub proof fn lemma_unseen_update(marks: Seq<Mark>, i: int, mark: Mark)
    requires
        0 <= i < marks.len(),
    ensures
        unseen(marks.update(i, mark)) + (if marks[i] is Unseen {
            1nat
        } else {
            0nat
        }) == unseen(marks) + (if mark is Unseen {
            1nat
        } else {
            0nat
        }),
    decreases marks.len(),
{
    let after = marks.update(i, mark);
    if i == marks.len() - 1 {
        assert(after.drop_last() =~= marks.drop_last());
    } else {
        lemma_unseen_update(marks.drop_last(), i, mark);
        assert(after.drop_last() =~= marks.drop_last().update(i, mark));
    }
}


} // verus!
