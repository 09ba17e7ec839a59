//! The encoder on domain values: a tag around content that is a scalar or
//! a short list of scalars.

use crate::collections::integer_parts;
use crate::emit::after;
use crate::emit::before;
use crate::emit::container_head;
use crate::emit::container_tail;
use crate::emit::namespace_prefix;
use crate::emit::EncodeState;
use crate::emit::Encoded;
use crate::errors::EncodeError;
use crate::value::lemma_model_unfold;
use crate::value::models;
use crate::value::Item;
use crate::value::Value;
use crate::wire::head;
use crate::writer::ByteSink;
use crate::encoder::wrote;
use crate::encoder::CBOREncoder;
use crate::encoder::DefaultHook;
use crate::domain_model::date_bytes;
use crate::domain_model::datetime_bytes;
use crate::domain_model::days_of;
use crate::domain_model::domain_bytes;
use crate::domain_model::flat_bytes;
use crate::domain_model::listed_bytes;
use crate::domain_model::network_bytes;
use crate::domain_model::scalar_bytes;
use crate::domain_model::scalars_bytes;
use crate::domain_model::stripped;
use crate::domain_model::whole_seconds;
use crate::domain_model::wrapped_bytes;
use crate::domain_model::zulu;
use crate::tags::holds_integer;
use crate::tags::holds_number;
use crate::tags::EPOCH_ORDINAL;
use crate::value::DomainKind;
use vstd::arithmetic::power2::pow2;
use vstd::prelude::*;
use vstd::string::StrSliceExecFns;
use vstd::string::StringExecFns;

verus! {

/// What was written for a list of values without members, from what was
/// written for the values: prefix and header went first, the values were
/// written with string namespacing off, the tail went last and the flag is
/// as it was.
proof fn lemma_wrote_flat<W: ByteSink, D: DefaultHook>(
    r: Result<(), EncodeError>,
    start: CBOREncoder<W, D>,
    inner: CBOREncoder<W, D>,
    reached: CBOREncoder<W, D>,
    end: CBOREncoder<W, D>,
    major: u8,
    items: Seq<Item>,
)
    requires
        inner.state() == (EncodeState { string_namespacing: false, ..start.state() }),
        inner.writer.output() == start.writer.output() + (namespace_prefix(start.state())
            + container_head(
            major,
            if major == 5 {
                items.len() / 2
            } else {
                items.len()
            },
            start.state(),
        )),
        wrote(r, inner, reached, scalars_bytes(items, inner.state())),
        r is Ok ==> end.state() == (EncodeState {
            string_namespacing: start.state().string_namespacing,
            ..reached.state()
        }) && end.writer.output() == reached.writer.output() + container_tail(start.state()),
    ensures
        wrote(r, start, end, flat_bytes(major, items, start.state())),
{
    reveal(flat_bytes);
    let st = start.state();
    let count = if major == 5 {
        items.len() / 2
    } else {
        items.len()
    };
    let prefix = namespace_prefix(st) + container_head(major, count, st);
    match scalars_bytes(items, inner.state()) {
        Encoded::Done { bytes, state } => {
            let t = container_tail(st);
            assert(start.writer.output() + prefix + bytes + t =~= start.writer.output() + (prefix
                + (bytes + t)));
        },
        Encoded::Failed(e) => {},
    }
}

/// The bytes without the zeros at their end.
pub fn strip_zeros(bytes: &Vec<u8>) -> (out: Vec<u8>)
    ensures
        out@ == stripped(bytes@),
{
    let mut n: usize = bytes.len();
    proof {
        assert(bytes@.take(n as int) =~= bytes@);
    }
    while n > 0 && bytes[n - 1] == 0
        invariant
            n <= bytes.len(),
            stripped(bytes@.take(n as int)) == stripped(bytes@),
        decreases n,
    {
        proof {
            assert(bytes@.take(n as int).drop_last() =~= bytes@.take(n - 1));
        }
        n = n - 1;
    }
    let mut out: Vec<u8> = Vec::new();
    let mut i: usize = 0;
    while i < n
        invariant
            i <= n <= bytes.len(),
            out@ == bytes@.take(i as int),
        decreases n - i,
    {
        out.push(bytes[i]);
        assert(bytes@.take(i + 1) =~= bytes@.take(i as int).push(bytes@[i as int]));
        i += 1;
    }
    out
}

/// The text with every `+00:00` turned into `Z`.
pub fn zulu_text(text: &str) -> (out: String)
    ensures
        out@ == zulu(text@),
{
    let count = text.unicode_len();
    let mut out = String::new();
    let mut i: usize = 0;
    proof {
        reveal_strlit("+00:00");
        reveal_strlit("Z");
        assert(text@.skip(0) =~= text@);
        assert(out@ + zulu(text@) =~= zulu(text@));
    }
    while i < count
        invariant
            i <= count,
            count == text@.len(),
            out@ + zulu(text@.skip(i as int)) == zulu(text@),
            "+00:00"@.len() == 6,
            "+00:00"@[0] == '+',
            "+00:00"@[1] == '0',
            "+00:00"@[2] == '0',
            "+00:00"@[3] == ':',
            "+00:00"@[4] == '0',
            "+00:00"@[5] == '0',
            "Z"@ =~= seq!['Z'],
        decreases count - i,
    {
        let ghost rest = text@.skip(i as int);
        let matches = count - i >= 6 && text.get_char(i) == '+' && text.get_char(i + 1) == '0'
            && text.get_char(i + 2) == '0' && text.get_char(i + 3) == ':' && text.get_char(i + 4)
            == '0' && text.get_char(i + 5) == '0';
        proof {
            if rest.len() >= 6 {
                assert(forall|k: int| 0 <= k < 6 ==> rest.take(6)[k] == text@[i + k]);
                if matches {
                    assert(rest.take(6) =~= "+00:00"@);
                } else {
                    assert(rest.take(6) != "+00:00"@);
                }
            }
        }
        let ghost before = out@;
        if matches {
            out.append("Z");
            proof {
                assert(rest.skip(6) =~= text@.skip(i + 6));
                assert(out@ + zulu(text@.skip(i + 6)) =~= before + zulu(rest));
            }
            i += 6;
        } else {
            let one = text.substring_char(i, i + 1);
            out.append(one);
            proof {
                assert(one@ =~= seq![rest[0]]);
                assert(rest.skip(1) =~= text@.skip(i + 1));
                assert(out@ + zulu(text@.skip(i + 1)) =~= before + zulu(rest));
            }
            i += 1;
        }
    }
    proof {
        assert(out@ + zulu(text@.skip(i as int)) =~= out@);
    }
    out
}

/// The whole number below 2^32 that a double is, if it is one.
pub fn whole_seconds_of(d: u64) -> (r: Option<u64>)
    ensures
        r == whole_seconds(d),
{
    proof {
        reveal(whole_seconds);
        vstd::arithmetic::power2::lemma2_to64();
    }
    let e = (d / 0x10_0000_0000_0000) % 2048;
    let m = d % 0x10_0000_0000_0000;
    if e == 0 && m == 0 {
        return Some(0);
    }
    if d >= 0x8000_0000_0000_0000 || e < 1023 || e > 1054 {
        return None;
    }
    let shift = 1075 - e;
    let mut divisor: u64 = 1;
    let mut j: u64 = 0;
    while j < shift
        invariant
            j <= shift <= 52,
            divisor == pow2(j as nat),
            divisor <= 0x10_0000_0000_0000,
        decreases shift - j,
    {
        proof {
            vstd::arithmetic::power2::lemma_pow2_unfold((j + 1) as nat);
            vstd::arithmetic::power2::lemma2_to64_rest();
            if j + 1 < 52 {
                vstd::arithmetic::power2::lemma_pow2_strictly_increases((j + 1) as nat, 52);
            }
        }
        divisor = 2 * divisor;
        j = j + 1;
    }
    proof {
        vstd::arithmetic::power2::lemma_pow2_pos(shift as nat);
    }
    let whole = 0x10_0000_0000_0000 + m;
    if whole % divisor != 0 {
        None
    } else {
        Some(whole / divisor)
    }
}

/// The days since the epoch of the date with the ordinal.
pub fn days_since_epoch(ordinal: &Value) -> (r: Result<Value, EncodeError>)
    ensures
        r matches Ok(v) ==> days_of(ordinal@) == Some(v@),
        r matches Err(e) ==> e == EncodeError::InvalidContent && days_of(ordinal@) is None,
{
    match integer_parts(ordinal) {
        None => Err(EncodeError::InvalidContent),
        Some((negative, bytes)) => {
            proof {
                crate::wire::lemma_be_value_bound(bytes@);
                assert(crate::wire::radix(7) == 0x100_0000_0000_0000) by {
                    reveal_with_fuel(crate::wire::radix, 8);
                }
                if bytes@.len() > 7 {
                    crate::wire::lemma_be_value_nonzero_lead_from_minimal(bytes@);
                    crate::wire::lemma_radix_monotone(7, (bytes@.len() - 1) as nat);
                } else {
                    crate::wire::lemma_radix_monotone(bytes@.len(), 7);
                }
            }
            if bytes.len() > 7 {
                return Err(EncodeError::InvalidContent);
            }
            let n = crate::wire::be_to_u64(bytes.as_slice());
            if negative {
                Ok(Value::Negative(n + EPOCH_ORDINAL))
            } else if n >= EPOCH_ORDINAL {
                Ok(Value::Unsigned(n - EPOCH_ORDINAL))
            } else {
                Ok(Value::Negative(EPOCH_ORDINAL - 1 - n))
            }
        },
    }
}

impl<W: ByteSink, D: DefaultHook> CBOREncoder<W, D> {
    /// Writes a value without members: an integer, a string, a
    /// floating-point number, a boolean or null.
    pub(crate) fn encode_scalar(&mut self, value: &Value) -> (r: Result<(), EncodeError>)
        requires
            old(self).writer.wf(),
        ensures
            final(self).writer.wf(),
            final(self).same_setup(old(self)),
            final(self).marks@.len() == old(self).marks@.len(),
            final(self).marks == old(self).marks,
            wrote(r, *old(self), *final(self), scalar_bytes(value@, old(self).state())),
    {
        proof {
            lemma_model_unfold(*value);
        }
        match value {
            Value::Unsigned(_) | Value::Negative(_) | Value::BigUnsigned(_) | Value::BigNegative(
                _,
            ) => {
                self.encode_int(value);
                Ok(())
            },
            Value::Bytes(_) => {
                self.encode_bytes(value);
                Ok(())
            },
            Value::Text(_) => {
                self.encode_string(value);
                Ok(())
            },
            Value::Float(bits) => {
                self.encode_float(*bits);
                Ok(())
            },
            Value::Bool(b) => {
                self.encode_bool(*b);
                Ok(())
            },
            Value::Null => {
                self.encode_none();
                Ok(())
            },
            _ => Err(EncodeError::InvalidContent),
        }
    }

    /// Writes values without members, one after the other.
    pub(crate) fn encode_scalars(&mut self, items: &Vec<Value>) -> (r: Result<(), EncodeError>)
        requires
            old(self).writer.wf(),
        ensures
            final(self).writer.wf(),
            final(self).same_setup(old(self)),
            final(self).marks@.len() == old(self).marks@.len(),
            final(self).marks == old(self).marks,
            wrote(r, *old(self), *final(self), scalars_bytes(models(items@), old(self).state())),
    {
        let ghost all = models(items@);
        let ghost start = self.writer.output();
        let mut i: usize = 0;
        proof {
            assert(all.skip(0) =~= all);
            assert(start + Seq::<u8>::empty() =~= start);
        }
        let ghost done: Seq<u8> = Seq::empty();
        while i < items.len()
            invariant
                i <= items.len(),
                all == models(items@),
                start == old(self).writer.output(),
                self.writer.wf(),
                self.same_setup(old(self)),
                self.marks@.len() == old(self).marks@.len(),
                self.marks == old(self).marks,
                self.writer.output() == start + done,
                after(done, scalars_bytes(all.skip(i as int), self.state())) == scalars_bytes(
                    all,
                    old(self).state(),
                ),
            decreases items.len() - i,
        {
            let ghost here = self.state();
            let ghost rest = all.skip(i as int);
            proof {
                assert(rest[0] == items@[i as int]@);
                assert(rest.drop_first() =~= all.skip(i + 1));
            }
            match self.encode_scalar(&items[i]) {
                Err(e) => {
                    return Err(e);
                },
                Ok(_) => {},
            }
            proof {
                let r = scalar_bytes(rest[0], here);
                assert(start + done + r->bytes =~= start + (done + r->bytes));
                let tail = scalars_bytes(all.skip(i + 1), self.state());
                if tail is Done {
                    assert(done + (r->bytes + tail->bytes) =~= (done + r->bytes) + tail->bytes);
                }
                done = done + r->bytes;
            }
            i += 1;
        }
        proof {
            assert(done + Seq::<u8>::empty() =~= done);
        }
        Ok(())
    }

    /// Opens a list of values without members: the namespace prefix and
    /// the header; string namespacing is off behind it. Returns what the
    /// flag for string namespacing was.
    fn begin_flat(&mut self, major: u8, count: usize) -> (flag: bool)
        requires
            old(self).writer.wf(),
            major == 4 || major == 5,
        ensures
            final(self).writer.wf(),
            final(self).same_setup(old(self)),
            final(self).marks@.len() == old(self).marks@.len(),
            final(self).marks == old(self).marks,
            flag == old(self).string_namespacing,
            final(self).writer.output() == old(self).writer.output() + (namespace_prefix(
                old(self).state(),
            ) + container_head(major, count as nat, old(self).state())),
            final(self).state() == (EncodeState { string_namespacing: false, ..old(self).state() }),
    {
        let ghost start = self.writer.output();
        let ghost st = self.state();
        let flag = self.string_namespacing;
        if flag {
            self.encode_length(6, Some(256));
        }
        self.string_namespacing = false;
        self.encode_length(
            major,
            if self.indefinite_containers {
                None
            } else {
                Some(count as u64)
            },
        );
        proof {
            let a = namespace_prefix(st);
            let b = container_head(major, count as nat, st);
            assert(start + a + b =~= start + (a + b));
            assert(start + b =~= start + (Seq::<u8>::empty() + b));
        }
        flag
    }

    /// Closes a list of values without members: the break where
    /// containers are of indefinite length; string namespacing is back to
    /// `flag`.
    fn end_flat(&mut self, flag: bool, indefinite: bool)
        requires
            old(self).writer.wf(),
        ensures
            final(self).writer.wf(),
            final(self).same_setup(old(self)),
            final(self).marks@.len() == old(self).marks@.len(),
            final(self).marks == old(self).marks,
            final(self).writer.output() == old(self).writer.output() + if indefinite {
                seq![0xffu8]
            } else {
                Seq::empty()
            },
            final(self).state() == (EncodeState { string_namespacing: flag, ..old(self).state() }),
    {
        let ghost start = self.writer.output();
        if indefinite {
            self.put_byte(0xff);
        }
        self.string_namespacing = flag;
        proof {
            assert(start + Seq::<u8>::empty() =~= start);
        }
    }

    /// Writes a list of values without members, or with `major` 5 a map
    /// of them, behind the namespace prefix.
    pub(crate) fn encode_flat(&mut self, major: u8, items: &Vec<Value>) -> (r: Result<
        (),
        EncodeError,
    >)
        requires
            old(self).writer.wf(),
            major == 4 || major == 5,
        ensures
            final(self).writer.wf(),
            final(self).same_setup(old(self)),
            final(self).marks@.len() == old(self).marks@.len(),
            final(self).marks == old(self).marks,
            wrote(r, *old(self), *final(self), flat_bytes(major, models(items@), old(self).state())),
    {
        let count = if major == 5 {
            items.len() / 2
        } else {
            items.len()
        };
        let indefinite = self.indefinite_containers;
        let flag = self.begin_flat(major, count);
        let ghost inner = *self;
        let result = self.encode_scalars(items);
        let ghost reached = *self;
        if result.is_ok() {
            self.end_flat(flag, indefinite);
        }
        proof {
            lemma_wrote_flat(result, *old(self), inner, reached, *self, major, models(items@));
        }
        result
    }

    /// Writes tag `tag` around content without members.
    pub(crate) fn encode_wrapped(&mut self, tag: u64, content: &Value) -> (r: Result<
        (),
        EncodeError,
    >)
        requires
            old(self).writer.wf(),
        ensures
            final(self).writer.wf(),
            final(self).same_setup(old(self)),
            final(self).marks@.len() == old(self).marks@.len(),
            final(self).marks == old(self).marks,
            wrote(r, *old(self), *final(self), wrapped_bytes(tag, content@, old(self).state())),
    {
        let ghost start = self.writer.output();
        let ghost body = scalar_bytes(content@, self.state());
        self.encode_length(6, Some(tag));
        let result = self.encode_scalar(content);
        proof {
            match body {
                Encoded::Done { bytes, state } => {
                    assert(start + head(6, tag as nat) + bytes =~= start + (head(6, tag as nat)
                        + bytes));
                },
                Encoded::Failed(e) => {},
            }
        }
        result
    }

    /// Writes tag `tag` around content that is a list of values without
    /// members.
    pub(crate) fn encode_listed(&mut self, tag: u64, content: &Value) -> (r: Result<
        (),
        EncodeError,
    >)
        requires
            old(self).writer.wf(),
        ensures
            final(self).writer.wf(),
            final(self).same_setup(old(self)),
            final(self).marks@.len() == old(self).marks@.len(),
            final(self).marks == old(self).marks,
            wrote(r, *old(self), *final(self), listed_bytes(tag, content@, old(self).state())),
    {
        proof {
            lemma_model_unfold(*content);
        }
        match content {
            Value::Tuple(parts) => {
                let ghost start = self.writer.output();
                let ghost body = flat_bytes(4, models(parts@), self.state());
                self.encode_length(6, Some(tag));
                let result = self.encode_flat(4, parts);
                proof {
                    match body {
                        Encoded::Done { bytes, state } => {
                            assert(start + head(6, tag as nat) + bytes =~= start + (head(
                                6,
                                tag as nat,
                            ) + bytes));
                        },
                        Encoded::Failed(e) => {},
                    }
                }
                result
            },
            _ => Err(EncodeError::InvalidContent),
        }
    }

    /// Writes a network: tag `tag` around the prefix length and the
    /// address without the zeros at its end, and the zone where there is
    /// one.
    pub(crate) fn encode_network(&mut self, tag: u64, content: &Value) -> (r: Result<
        (),
        EncodeError,
    >)
        requires
            old(self).writer.wf(),
        ensures
            final(self).writer.wf(),
            final(self).same_setup(old(self)),
            final(self).marks@.len() == old(self).marks@.len(),
            final(self).marks == old(self).marks,
            wrote(r, *old(self), *final(self), network_bytes(tag, content@, old(self).state())),
    {
        proof {
            lemma_model_unfold(*content);
            reveal(network_bytes);
        }
        match content {
            Value::Tuple(parts) => {
                if parts.len() < 2 || !holds_integer(&parts[1]) {
                    return Err(EncodeError::InvalidContent);
                }
                let short = match &parts[0] {
                    Value::Bytes(b) => strip_zeros(b),
                    _ => {
                        return Err(EncodeError::InvalidContent);
                    },
                };
                let ghost before = models(parts@);
                let mut wire = crate::value::duplicate_all(parts);
                let prefix = parts[1].duplicate();
                wire.set(0, prefix);
                wire.set(1, Value::Bytes(short));
                proof {
                    assert(models(wire@) =~= before.update(0, before[1]).update(
                        1,
                        Item::Bytes(stripped(before[0]->Bytes_0)),
                    ));
                }
                let ghost start = self.writer.output();
                let ghost body = flat_bytes(4, models(wire@), self.state());
                self.encode_length(6, Some(tag));
                let result = self.encode_flat(4, &wire);
                proof {
                    match body {
                        Encoded::Done { bytes, state } => {
                            assert(start + head(6, tag as nat) + bytes =~= start + (head(
                                6,
                                tag as nat,
                            ) + bytes));
                        },
                        Encoded::Failed(e) => {},
                    }
                }
                result
            },
            _ => Err(EncodeError::InvalidContent),
        }
    }

    /// Writes a date and time given with both its forms: whether it has a
    /// zone, its ISO 8601 text, and its seconds since the epoch.
    ///
    /// Fails without a zone and without a default zone. As a timestamp it
    /// is tag 1 around the seconds, as an integer where they are a whole
    /// number below 2^32; otherwise tag 0 around the text, with `Z` for the
    /// zone `+00:00`.
    pub fn encode_datetime(&mut self, content: &Value) -> (r: Result<(), EncodeError>)
        requires
            old(self).writer.wf(),
        ensures
            final(self).writer.wf(),
            final(self).same_setup(old(self)),
            final(self).marks@.len() == old(self).marks@.len(),
            final(self).marks == old(self).marks,
            wrote(r, *old(self), *final(self), datetime_bytes(content@, old(self).state())),
    {
        proof {
            lemma_model_unfold(*content);
            reveal(datetime_bytes);
        }
        let parts = match content {
            Value::Tuple(parts) => parts,
            _ => {
                return Err(EncodeError::InvalidContent);
            },
        };
        if parts.len() != 3 || !holds_number(&parts[2]) {
            return Err(EncodeError::InvalidContent);
        }
        let aware = match &parts[0] {
            Value::Bool(b) => *b,
            _ => {
                return Err(EncodeError::InvalidContent);
            },
        };
        let text = match &parts[1] {
            Value::Text(s) => s,
            _ => {
                return Err(EncodeError::InvalidContent);
            },
        };
        if !aware && !self.timezone {
            return Err(EncodeError::NaiveDateTime);
        }
        if self.datetime_as_timestamp {
            let whole = match &parts[2] {
                Value::Float(d) => whole_seconds_of(*d),
                _ => None,
            };
            match whole {
                Some(n) => self.encode_wrapped(1, &Value::Unsigned(n)),
                None => self.encode_wrapped(1, &parts[2]),
            }
        } else {
            let zoned = Value::Text(zulu_text(text.as_str()));
            self.encode_wrapped(0, &zoned)
        }
    }

    /// Writes a date given with all its forms: its ordinal, its ISO 8601
    /// text, and the date and time of its midnight.
    ///
    /// It is written as that date and time where dates are to be written
    /// so; otherwise, as a timestamp, as tag 100 around the days since the
    /// epoch; otherwise as tag 1004 around the text.
    pub fn encode_date(&mut self, content: &Value) -> (r: Result<(), EncodeError>)
        requires
            old(self).writer.wf(),
        ensures
            final(self).writer.wf(),
            final(self).same_setup(old(self)),
            final(self).marks@.len() == old(self).marks@.len(),
            final(self).marks == old(self).marks,
            wrote(r, *old(self), *final(self), date_bytes(content@, old(self).state())),
    {
        proof {
            lemma_model_unfold(*content);
            reveal(date_bytes);
        }
        let parts = match content {
            Value::Tuple(parts) => parts,
            _ => {
                return Err(EncodeError::InvalidContent);
            },
        };
        if parts.len() != 3 || !holds_integer(&parts[0]) {
            return Err(EncodeError::InvalidContent);
        }
        match &parts[1] {
            Value::Text(_) => {},
            _ => {
                return Err(EncodeError::InvalidContent);
            },
        }
        if self.date_as_datetime {
            self.encode_datetime(&parts[2])
        } else if self.datetime_as_timestamp {
            match days_since_epoch(&parts[0]) {
                Err(e) => Err(e),
                Ok(days) => self.encode_wrapped(100, &days),
            }
        } else {
            self.encode_wrapped(1004, &parts[1])
        }
    }

    /// Writes a rational number: tag 30 around numerator and denominator.
    pub fn encode_rational(&mut self, content: &Value) -> (r: Result<(), EncodeError>)
        requires
            old(self).writer.wf(),
        ensures
            final(self).writer.wf(),
            final(self).same_setup(old(self)),
            final(self).marks@.len() == old(self).marks@.len(),
            final(self).marks == old(self).marks,
            wrote(r, *old(self), *final(self), listed_bytes(30, content@, old(self).state())),
    {
        self.encode_listed(30, content)
    }

    /// Writes a regular expression: tag 35 around its pattern.
    pub fn encode_regexp(&mut self, content: &Value) -> (r: Result<(), EncodeError>)
        requires
            old(self).writer.wf(),
        ensures
            final(self).writer.wf(),
            final(self).same_setup(old(self)),
            final(self).marks@.len() == old(self).marks@.len(),
            final(self).marks == old(self).marks,
            wrote(r, *old(self), *final(self), wrapped_bytes(35, content@, old(self).state())),
    {
        self.encode_wrapped(35, content)
    }

    /// Writes a MIME message: tag 36 around its text.
    pub fn encode_mime(&mut self, content: &Value) -> (r: Result<(), EncodeError>)
        requires
            old(self).writer.wf(),
        ensures
            final(self).writer.wf(),
            final(self).same_setup(old(self)),
            final(self).marks@.len() == old(self).marks@.len(),
            final(self).marks == old(self).marks,
            wrote(r, *old(self), *final(self), wrapped_bytes(36, content@, old(self).state())),
    {
        self.encode_wrapped(36, content)
    }

    /// Writes a UUID: tag 37 around its bytes.
    pub fn encode_uuid(&mut self, content: &Value) -> (r: Result<(), EncodeError>)
        requires
            old(self).writer.wf(),
        ensures
            final(self).writer.wf(),
            final(self).same_setup(old(self)),
            final(self).marks@.len() == old(self).marks@.len(),
            final(self).marks == old(self).marks,
            wrote(r, *old(self), *final(self), wrapped_bytes(37, content@, old(self).state())),
    {
        self.encode_wrapped(37, content)
    }

    /// Writes a decimal number: NaN and the infinities as the
    /// floating-point number, any other as tag 4 around exponent and
    /// mantissa.
    pub fn encode_decimal(&mut self, content: &Value) -> (r: Result<(), EncodeError>)
        requires
            old(self).writer.wf(),
        ensures
            final(self).writer.wf(),
            final(self).same_setup(old(self)),
            final(self).marks@.len() == old(self).marks@.len(),
            final(self).marks == old(self).marks,
            wrote(
                r,
                *old(self),
                *final(self),
                if content@ is Float {
                    scalar_bytes(content@, old(self).state())
                } else {
                    listed_bytes(4, content@, old(self).state())
                },
            ),
    {
        match content {
            Value::Float(_) => self.encode_scalar(content),
            _ => self.encode_listed(4, content),
        }
    }

    /// Writes an IPv4 address: tag 52 around its four bytes.
    pub fn encode_ipv4_address(&mut self, content: &Value) -> (r: Result<(), EncodeError>)
        requires
            old(self).writer.wf(),
        ensures
            final(self).writer.wf(),
            final(self).same_setup(old(self)),
            final(self).marks@.len() == old(self).marks@.len(),
            final(self).marks == old(self).marks,
            wrote(r, *old(self), *final(self), wrapped_bytes(52, content@, old(self).state())),
    {
        self.encode_wrapped(52, content)
    }

    /// Writes an IPv4 network: tag 52 around prefix length and address
    /// without the zeros at its end.
    pub fn encode_ipv4_network(&mut self, content: &Value) -> (r: Result<(), EncodeError>)
        requires
            old(self).writer.wf(),
        ensures
            final(self).writer.wf(),
            final(self).same_setup(old(self)),
            final(self).marks@.len() == old(self).marks@.len(),
            final(self).marks == old(self).marks,
            wrote(r, *old(self), *final(self), network_bytes(52, content@, old(self).state())),
    {
        self.encode_network(52, content)
    }

    /// Writes an IPv4 interface: tag 52 around address and prefix length.
    pub fn encode_ipv4_interface(&mut self, content: &Value) -> (r: Result<(), EncodeError>)
        requires
            old(self).writer.wf(),
        ensures
            final(self).writer.wf(),
            final(self).same_setup(old(self)),
            final(self).marks@.len() == old(self).marks@.len(),
            final(self).marks == old(self).marks,
            wrote(r, *old(self), *final(self), listed_bytes(52, content@, old(self).state())),
    {
        self.encode_listed(52, content)
    }

    /// Writes an IPv6 address: tag 54 around its sixteen bytes, or around
    /// address, null and zone where it has a zone.
    pub fn encode_ipv6_address(&mut self, content: &Value) -> (r: Result<(), EncodeError>)
        requires
            old(self).writer.wf(),
        ensures
            final(self).writer.wf(),
            final(self).same_setup(old(self)),
            final(self).marks@.len() == old(self).marks@.len(),
            final(self).marks == old(self).marks,
            wrote(
                r,
                *old(self),
                *final(self),
                if content@ is Tuple {
                    listed_bytes(54, content@, old(self).state())
                } else {
                    wrapped_bytes(54, content@, old(self).state())
                },
            ),
    {
        proof {
            lemma_model_unfold(*content);
        }
        match content {
            Value::Tuple(_) => self.encode_listed(54, content),
            _ => self.encode_wrapped(54, content),
        }
    }

    /// Writes an IPv6 network: tag 54 around prefix length and address
    /// without the zeros at its end.
    pub fn encode_ipv6_network(&mut self, content: &Value) -> (r: Result<(), EncodeError>)
        requires
            old(self).writer.wf(),
        ensures
            final(self).writer.wf(),
            final(self).same_setup(old(self)),
            final(self).marks@.len() == old(self).marks@.len(),
            final(self).marks == old(self).marks,
            wrote(r, *old(self), *final(self), network_bytes(54, content@, old(self).state())),
    {
        self.encode_network(54, content)
    }

    /// Writes an IPv6 interface: tag 54 around address, prefix length and,
    /// where there is one, zone.
    pub fn encode_ipv6_interface(&mut self, content: &Value) -> (r: Result<(), EncodeError>)
        requires
            old(self).writer.wf(),
        ensures
            final(self).writer.wf(),
            final(self).same_setup(old(self)),
            final(self).marks@.len() == old(self).marks@.len(),
            final(self).marks == old(self).marks,
            wrote(r, *old(self), *final(self), listed_bytes(54, content@, old(self).state())),
    {
        self.encode_listed(54, content)
    }

    /// Writes a complex number: tag 43000 around real and imaginary part.
    pub fn encode_complex(&mut self, content: &Value) -> (r: Result<(), EncodeError>)
        requires
            old(self).writer.wf(),
        ensures
            final(self).writer.wf(),
            final(self).same_setup(old(self)),
            final(self).marks@.len() == old(self).marks@.len(),
            final(self).marks == old(self).marks,
            wrote(r, *old(self), *final(self), listed_bytes(43000, content@, old(self).state())),
    {
        self.encode_listed(43000, content)
    }

    /// Writes a domain value by its kind.
    pub fn encode_domain(&mut self, kind: DomainKind, content: &Value) -> (r: Result<
        (),
        EncodeError,
    >)
        requires
            old(self).writer.wf(),
        ensures
            final(self).writer.wf(),
            final(self).same_setup(old(self)),
            final(self).marks@.len() == old(self).marks@.len(),
            final(self).marks == old(self).marks,
            wrote(r, *old(self), *final(self), domain_bytes(kind, content@, old(self).state())),
    {
        proof {
            lemma_model_unfold(*content);
            reveal(domain_bytes);
        }
        match kind {
            DomainKind::DateTimeText => self.encode_wrapped(0, content),
            DomainKind::EpochDateTime => self.encode_wrapped(1, content),
            DomainKind::DateTime => self.encode_datetime(content),
            DomainKind::Decimal => self.encode_decimal(content),
            DomainKind::BigFloat => self.encode_listed(5, content),
            DomainKind::Rational => self.encode_rational(content),
            DomainKind::Regexp => self.encode_regexp(content),
            DomainKind::Mime => self.encode_mime(content),
            DomainKind::Uuid => self.encode_uuid(content),
            DomainKind::Ipv4Address => self.encode_ipv4_address(content),
            DomainKind::Ipv4Network => self.encode_ipv4_network(content),
            DomainKind::Ipv4Interface => self.encode_ipv4_interface(content),
            DomainKind::Ipv6Address => self.encode_ipv6_address(content),
            DomainKind::Ipv6Network => self.encode_ipv6_network(content),
            DomainKind::Ipv6Interface => self.encode_ipv6_interface(content),
            DomainKind::EpochDate => match days_since_epoch(content) {
                Err(e) => Err(e),
                Ok(days) => self.encode_wrapped(100, &days),
            },
            DomainKind::DateText => self.encode_wrapped(1004, content),
            DomainKind::Date => self.encode_date(content),
            DomainKind::IpAddress => self.encode_wrapped(260, content),
            DomainKind::IpNetwork => match content {
                Value::Tuple(parts) => {
                    if parts.len() != 2 {
                        return Err(EncodeError::InvalidContent);
                    }
                    let ghost start = self.writer.output();
                    let ghost body = flat_bytes(5, models(parts@), self.state());
                    self.encode_length(6, Some(261));
                    let result = self.encode_flat(5, parts);
                    proof {
                        match body {
                            Encoded::Done { bytes, state } => {
                                assert(start + head(6, 261) + bytes =~= start + (head(6, 261)
                                    + bytes));
                            },
                            Encoded::Failed(e) => {},
                        }
                    }
                    result
                },
                _ => Err(EncodeError::InvalidContent),
            },
            DomainKind::Complex => self.encode_complex(content),
        }
    }
}

} // verus!
