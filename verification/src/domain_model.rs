//! What the domain values encode to: a tag around content that is a scalar
//! or a short list of scalars.

use crate::emit::after;
use crate::emit::before;
use crate::emit::container_head;
use crate::emit::container_tail;
use crate::emit::float_bytes;
use crate::emit::integer_bytes;
use crate::emit::namespace_prefix;
use crate::emit::string_bytes;
use crate::emit::with_namespacing;
use crate::emit::EncodeState;
use crate::emit::Encoded;
use crate::errors::EncodeFault;
use crate::floats::exponent_field;
use crate::floats::fraction_field;
use crate::floats::is_negative;
use crate::tags::is_integer;
use crate::tags::is_number;
use crate::tags::EPOCH_ORDINAL;
use crate::value::DomainKind;
use crate::value::Item;
use crate::wire::head;
use vstd::arithmetic::power2::pow2;
use vstd::prelude::*;
use vstd::utf8::encode_utf8;

verus! {

/// A value without members: an integer, a string, a floating-point
/// number, a boolean or null.
pub open spec fn scalar_bytes(item: Item, st: EncodeState) -> Encoded {
    match item {
        Item::Unsigned(n) => integer_bytes(n, false, st),
        Item::Negative(n) => integer_bytes(n, true, st),
        Item::Bytes(b) => string_bytes(item, 2, b, st),
        Item::Text(s) => string_bytes(item, 3, encode_utf8(s), st),
        Item::Float(d) => Encoded::Done { bytes: float_bytes(d, st.canonical), state: st },
        Item::Bool(b) => Encoded::Done {
            bytes: seq![
                if b {
                    0xf5u8
                } else {
                    0xf4u8
                },
            ],
            state: st,
        },
        Item::Null => Encoded::Done { bytes: seq![0xf6u8], state: st },
        _ => Encoded::Failed(EncodeFault::InvalidContent),
    }
}

/// Values without members, one after the other.
pub open spec fn scalars_bytes(items: Seq<Item>, st: EncodeState) -> Encoded
    decreases items.len(),
{
    if items.len() == 0 {
        Encoded::Done { bytes: Seq::empty(), state: st }
    } else {
        match scalar_bytes(items[0], st) {
            Encoded::Failed(e) => Encoded::Failed(e),
            Encoded::Done { bytes, state } => after(bytes, scalars_bytes(items.drop_first(), state)),
        }
    }
}

/// A list of values without members, or with `major` 5 a map of them
/// (keys and values in turn): behind the namespace prefix, and never with a
/// shareable marker, since the list is no value of the program's own.
#[verifier::opaque]
pub open spec fn flat_bytes(major: u8, items: Seq<Item>, st: EncodeState) -> Encoded {
    let count = if major == 5 {
        items.len() / 2
    } else {
        items.len()
    };
    after(
        namespace_prefix(st) + container_head(major, count, st),
        with_namespacing(
            before(
                scalars_bytes(items, EncodeState { string_namespacing: false, ..st }),
                container_tail(st),
            ),
            st.string_namespacing,
        ),
    )
}

/// The bytes without the zeros at their end.
pub open spec fn stripped(bytes: Seq<u8>) -> Seq<u8>
    decreases bytes.len(),
{
    if bytes.len() > 0 && bytes.last() == 0 {
        stripped(bytes.drop_last())
    } else {
        bytes
    }
}

/// The text with every `+00:00` turned into `Z`.
pub open spec fn zulu(text: Seq<char>) -> Seq<char>
    decreases text.len(),
{
    if text.len() == 0 {
        text
    } else if text.len() >= 6 && text.take(6) == "+00:00"@ {
        seq!['Z'] + zulu(text.skip(6))
    } else {
        seq![text[0]] + zulu(text.skip(1))
    }
}

/// The whole number below 2^32 that a double is, if it is one.
#[verifier::opaque]
pub open spec fn whole_seconds(d: u64) -> Option<u64> {
    let e = exponent_field(d);
    let m = fraction_field(d);
    if e == 0 && m == 0 {
        Some(0)
    } else if is_negative(d) || e < 1023 || e > 1054 {
        None
    } else if (0x10_0000_0000_0000 + m) as nat % pow2((1075 - e) as nat) != 0 {
        None
    } else {
        Some(((0x10_0000_0000_0000 + m) as nat / pow2((1075 - e) as nat)) as u64)
    }
}

/// The days since the epoch of the date with the ordinal, as an integer
/// value; none for an ordinal beyond 2^56.
pub open spec fn days_of(ordinal: Item) -> Option<Item> {
    match ordinal {
        Item::Unsigned(n) => if n >= 0x100_0000_0000_0000 {
            None
        } else if n >= EPOCH_ORDINAL {
            Some(Item::Unsigned((n - EPOCH_ORDINAL) as nat))
        } else {
            Some(Item::Negative((EPOCH_ORDINAL - 1 - n) as nat))
        },
        Item::Negative(n) => if n >= 0x100_0000_0000_0000 {
            None
        } else {
            Some(Item::Negative(n + EPOCH_ORDINAL as nat))
        },
        _ => None,
    }
}

/// A date and time given with both its forms: whether it has a zone, its
/// ISO 8601 text, and its seconds since the epoch.
///
/// Without a zone and without a default zone it cannot be encoded. As a
/// timestamp it is tag 1 around the seconds, as an integer where they are a
/// whole number below 2^32; otherwise tag 0 around the text, with `Z` for
/// the zone `+00:00`.
#[verifier::opaque]
pub open spec fn datetime_bytes(content: Item, st: EncodeState) -> Encoded {
    match content {
        Item::Tuple(parts) => if parts.len() == 3 && parts[0] is Bool && parts[1] is Text
            && is_number(parts[2]) {
            if !parts[0]->Bool_0 && !st.timezone {
                Encoded::Failed(EncodeFault::NaiveDateTime)
            } else if st.datetime_as_timestamp {
                let seconds = match parts[2] {
                    Item::Float(d) => match whole_seconds(d) {
                        Some(n) => Item::Unsigned(n as nat),
                        None => parts[2],
                    },
                    _ => parts[2],
                };
                after(head(6, 1), scalar_bytes(seconds, st))
            } else {
                after(head(6, 0), scalar_bytes(Item::Text(zulu(parts[1]->Text_0)), st))
            }
        } else {
            Encoded::Failed(EncodeFault::InvalidContent)
        },
        _ => Encoded::Failed(EncodeFault::InvalidContent),
    }
}

/// A date given with all its forms: its ordinal, its ISO 8601 text, and
/// the date and time of its midnight.
///
/// It is written as that date and time where dates are to be written so;
/// otherwise, as a timestamp, as tag 100 around the days since the epoch;
/// otherwise as tag 1004 around the text.
#[verifier::opaque]
pub open spec fn date_bytes(content: Item, st: EncodeState) -> Encoded {
    match content {
        Item::Tuple(parts) => if parts.len() == 3 && is_integer(parts[0]) && parts[1] is Text {
            if st.date_as_datetime {
                datetime_bytes(parts[2], st)
            } else if st.datetime_as_timestamp {
                match days_of(parts[0]) {
                    Some(days) => after(head(6, 100), scalar_bytes(days, st)),
                    None => Encoded::Failed(EncodeFault::InvalidContent),
                }
            } else {
                after(head(6, 1004), scalar_bytes(parts[1], st))
            }
        } else {
            Encoded::Failed(EncodeFault::InvalidContent)
        },
        _ => Encoded::Failed(EncodeFault::InvalidContent),
    }
}

/// A network: tag `tag` around the prefix length and the address without
/// the zeros at its end, and the zone where there is one.
#[verifier::opaque]
pub open spec fn network_bytes(tag: u64, content: Item, st: EncodeState) -> Encoded {
    match content {
        Item::Tuple(parts) => if parts.len() >= 2 && parts[0] is Bytes && is_integer(parts[1]) {
            after(
                head(6, tag as nat),
                flat_bytes(
                    4,
                    parts.update(0, parts[1]).update(1, Item::Bytes(stripped(parts[0]->Bytes_0))),
                    st,
                ),
            )
        } else {
            Encoded::Failed(EncodeFault::InvalidContent)
        },
        _ => Encoded::Failed(EncodeFault::InvalidContent),
    }
}

/// Tag `tag` around content that is a list of values without members.
pub open spec fn listed_bytes(tag: u64, content: Item, st: EncodeState) -> Encoded {
    match content {
        Item::Tuple(parts) => after(head(6, tag as nat), flat_bytes(4, parts, st)),
        _ => Encoded::Failed(EncodeFault::InvalidContent),
    }
}

/// Tag `tag` around content without members.
pub open spec fn wrapped_bytes(tag: u64, content: Item, st: EncodeState) -> Encoded {
    after(head(6, tag as nat), scalar_bytes(content, st))
}

/// A domain value by its kind.
#[verifier::opaque]
pub open spec fn domain_bytes(kind: DomainKind, content: Item, st: EncodeState) -> Encoded {
    match kind {
        DomainKind::DateTimeText => wrapped_bytes(0, content, st),
        DomainKind::EpochDateTime => wrapped_bytes(1, content, st),
        DomainKind::DateTime => datetime_bytes(content, st),
        DomainKind::Decimal => if content is Float {
            scalar_bytes(content, st)
        } else {
            listed_bytes(4, content, st)
        },
        DomainKind::BigFloat => listed_bytes(5, content, st),
        DomainKind::Rational => listed_bytes(30, content, st),
        DomainKind::Regexp => wrapped_bytes(35, content, st),
        DomainKind::Mime => wrapped_bytes(36, content, st),
        DomainKind::Uuid => wrapped_bytes(37, content, st),
        DomainKind::Ipv4Address => wrapped_bytes(52, content, st),
        DomainKind::Ipv4Network => network_bytes(52, content, st),
        DomainKind::Ipv4Interface => listed_bytes(52, content, st),
        DomainKind::Ipv6Address => if content is Tuple {
            listed_bytes(54, content, st)
        } else {
            wrapped_bytes(54, content, st)
        },
        DomainKind::Ipv6Network => network_bytes(54, content, st),
        DomainKind::Ipv6Interface => listed_bytes(54, content, st),
        DomainKind::EpochDate => match days_of(content) {
            Some(days) => wrapped_bytes(100, days, st),
            None => Encoded::Failed(EncodeFault::InvalidContent),
        },
        DomainKind::DateText => wrapped_bytes(1004, content, st),
        DomainKind::Date => date_bytes(content, st),
        DomainKind::IpAddress => wrapped_bytes(260, content, st),
        DomainKind::IpNetwork => match content {
            Item::Tuple(parts) => if parts.len() == 2 {
                after(head(6, 261), flat_bytes(5, parts, st))
            } else {
                Encoded::Failed(EncodeFault::InvalidContent)
            },
            _ => Encoded::Failed(EncodeFault::InvalidContent),
        },
        DomainKind::Complex => listed_bytes(43000, content, st),
    }
}

} // verus!
