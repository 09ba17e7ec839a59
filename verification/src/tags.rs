//! The semantic tags whose content the decoder turns into another value:
//! big integers, sets, and the domain values, which are checked for their
//! shape and carried on by kind.

use crate::collections::all_hashable;
use crate::collections::distinct;
use crate::collections::distinct_values;
use crate::collections::every_hashable;
use crate::errors::DecodeError;
use crate::value::lemma_model_unfold;
use crate::value::models;
use crate::value::DomainKind;
use crate::value::Item;
use crate::value::Value;
use crate::wire::be_value;
use vstd::prelude::*;

verus! {

/// Days from the first day of the calendar to the day before the epoch:
/// what is added to days since the epoch to get the ordinal of a date.
pub const EPOCH_ORDINAL: u64 = 719163;

/// Whether the decoder turns the content of the tag into another value.
pub open spec fn is_interpreted_tag(tag: u64) -> bool {
    tag == 0 || tag == 1 || tag == 2 || tag == 3 || tag == 4 || tag == 5 || tag == 30 || tag == 35
        || tag == 36 || tag == 37 || tag == 52 || tag == 54 || tag == 100 || tag == 258 || tag
        == 260 || tag == 261 || tag == 1004 || tag == 43000
}

/// Whether the content of the tag is read in the context around it; the
/// content of the other interpreted tags is read in the immutable context.
pub open spec fn accepts_any_context(tag: u64) -> bool {
    !(tag == 4 || tag == 5 || tag == 30 || tag == 43000 || tag == 52 || tag == 54 || tag == 258)
}

/// Whether the value is an integer.
pub open spec fn is_integer(item: Item) -> bool {
    item is Unsigned || item is Negative
}

/// Whether the value is a number: an integer or a floating-point number.
pub open spec fn is_number(item: Item) -> bool {
    is_integer(item) || item is Float
}

/// The bytes brought to `width` bytes: cut off behind, or filled up with
/// zeros.
pub open spec fn resized(bytes: Seq<u8>, width: nat) -> Seq<u8> {
    Seq::new(
        width,
        |i: int|
            if i < bytes.len() {
                bytes[i]
            } else {
                0u8
            },
    )
}

/// The ordinal of the date that lies `days` after the epoch, as an integer
/// value; none where the days or the ordinal do not fit 32 bits with sign.
pub open spec fn ordinal_of(days: Item) -> Option<Item> {
    match days {
        Item::Unsigned(n) => if n + EPOCH_ORDINAL <= i32::MAX {
            Some(Item::Unsigned((n + EPOCH_ORDINAL) as nat))
        } else {
            None
        },
        Item::Negative(n) => if n >= 0x8000_0000 {
            None
        } else if n < EPOCH_ORDINAL {
            Some(Item::Unsigned((EPOCH_ORDINAL - 1 - n) as nat))
        } else {
            Some(Item::Negative((n - EPOCH_ORDINAL) as nat))
        },
        _ => None,
    }
}

/// An address of `width` bytes, or a network (prefix length, then address,
/// which is filled up to `width` bytes) or an interface (address of `width`
/// bytes, then prefix length), with a zone as a third member where `zoned`
/// allows one.
pub open spec fn address_form(
    content: Item,
    width: nat,
    zoned: bool,
    address: DomainKind,
    network: DomainKind,
    interface: DomainKind,
) -> Option<Item> {
    match content {
        Item::Bytes(b) => if b.len() == width {
            Some(Item::Domain(address, Box::new(content)))
        } else {
            None
        },
        Item::Tuple(parts) => if parts.len() == 2 || (zoned && parts.len() == 3) {
            let zone_fits = parts.len() == 2 || parts[2] is Bytes || is_integer(parts[2]);
            if !zone_fits {
                None
            } else if is_integer(parts[0]) && parts[1] is Bytes {
                Some(
                    Item::Domain(
                        network,
                        Box::new(
                            Item::Tuple(
                                parts.update(0, Item::Bytes(resized(parts[1]->Bytes_0, width))).update(
                                    1,
                                    parts[0],
                                ),
                            ),
                        ),
                    ),
                )
            } else if parts[0] is Bytes && is_integer(parts[1]) && parts[0]->Bytes_0.len()
                == width {
                Some(Item::Domain(interface, Box::new(content)))
            } else {
                None
            }
        } else {
            None
        },
        _ => None,
    }
}

/// The value that the content of an interpreted tag stands for, where the
/// content has the shape that the tag asks for.
///
/// Tags 2 and 3 make the integer that the bytes denote in big-endian
/// order, the second as `-1 - n`. Tag 258 makes a set of the members of an
/// array, frozen in the immutable context. The other tags make domain
/// values: the content is checked for its shape and carried on under its
/// kind.
pub open spec fn shaped(tag: u64, content: Item, immutable: bool) -> Option<Item> {
    if tag == 2 {
        match content {
            Item::Bytes(b) => Some(Item::Unsigned(be_value(b))),
            _ => None,
        }
    } else if tag == 3 {
        match content {
            Item::Bytes(b) => Some(Item::Negative(be_value(b))),
            _ => None,
        }
    } else if tag == 258 {
        match content {
            Item::Tuple(members) => if immutable {
                Some(Item::FrozenSet(distinct(members)))
            } else {
                Some(Item::MutableSet(distinct(members)))
            },
            _ => None,
        }
    } else if tag == 0 || tag == 35 || tag == 36 || tag == 1004 {
        let kind = if tag == 0 {
            DomainKind::DateTimeText
        } else if tag == 35 {
            DomainKind::Regexp
        } else if tag == 36 {
            DomainKind::Mime
        } else {
            DomainKind::DateText
        };
        if content is Text {
            Some(Item::Domain(kind, Box::new(content)))
        } else {
            None
        }
    } else if tag == 1 {
        if is_number(content) {
            Some(Item::Domain(DomainKind::EpochDateTime, Box::new(content)))
        } else {
            None
        }
    } else if tag == 4 || tag == 5 || tag == 30 || tag == 43000 {
        match content {
            Item::Tuple(parts) => if parts.len() != 2 {
                None
            } else if tag == 43000 {
                if is_number(parts[0]) && is_number(parts[1]) {
                    Some(Item::Domain(DomainKind::Complex, Box::new(content)))
                } else {
                    None
                }
            } else if !(is_integer(parts[0]) && is_integer(parts[1])) {
                None
            } else if tag == 4 {
                Some(Item::Domain(DomainKind::Decimal, Box::new(content)))
            } else if tag == 5 {
                Some(Item::Domain(DomainKind::BigFloat, Box::new(content)))
            } else if parts[1] == Item::Unsigned(0) {
                None
            } else {
                Some(Item::Domain(DomainKind::Rational, Box::new(content)))
            },
            _ => None,
        }
    } else if tag == 37 {
        match content {
            Item::Bytes(b) => if b.len() == 16 {
                Some(Item::Domain(DomainKind::Uuid, Box::new(content)))
            } else {
                None
            },
            _ => None,
        }
    } else if tag == 52 {
        address_form(
            content,
            4,
            false,
            DomainKind::Ipv4Address,
            DomainKind::Ipv4Network,
            DomainKind::Ipv4Interface,
        )
    } else if tag == 54 {
        address_form(
            content,
            16,
            true,
            DomainKind::Ipv6Address,
            DomainKind::Ipv6Network,
            DomainKind::Ipv6Interface,
        )
    } else if tag == 100 {
        match ordinal_of(content) {
            Some(ordinal) => Some(Item::Domain(DomainKind::EpochDate, Box::new(ordinal))),
            None => None,
        }
    } else if tag == 260 {
        match content {
            Item::Bytes(b) => if b.len() == 4 || b.len() == 16 {
                Some(Item::Domain(DomainKind::IpAddress, Box::new(content)))
            } else if b.len() == 6 {
                Some(Item::Tag(260, Box::new(content)))
            } else {
                None
            },
            _ => None,
        }
    } else if tag == 261 {
        match content {
            Item::Dict(entries) => if entries.len() == 1 && is_integer(entries[0].1) {
                Some(
                    Item::Domain(
                        DomainKind::IpNetwork,
                        Box::new(Item::Tuple(seq![entries[0].0, entries[0].1])),
                    ),
                )
            } else {
                None
            },
            _ => None,
        }
    } else {
        None
    }
}

/// The value that the content of an interpreted tag stands for; the
/// failure names the tag where the content has not the shape that the tag
/// asks for, and the member where a mutable value is to be the member of a
/// set.
pub open spec fn interpreted(tag: u64, content: Item, immutable: bool) -> Result<
    Item,
    DecodeError,
> {
    if tag == 258 && content is Tuple && !every_hashable(content->Tuple_0) {
        Err(DecodeError::UnhashableMember)
    } else {
        match shaped(tag, content, immutable) {
            Some(item) => Ok(item),
            None => Err(DecodeError::InvalidTagPayload { tag }),
        }
    }
}

/// Whether the decoder turns the content of the tag into another value.
pub fn interprets(tag: u64) -> (r: bool)
    ensures
        r == is_interpreted_tag(tag),
{
    tag == 0 || tag == 1 || tag == 2 || tag == 3 || tag == 4 || tag == 5 || tag == 30 || tag == 35
        || tag == 36 || tag == 37 || tag == 52 || tag == 54 || tag == 100 || tag == 258 || tag
        == 260 || tag == 261 || tag == 1004 || tag == 43000
}

/// Whether the content of the tag is read in the context around it.
pub fn reads_in_any_context(tag: u64) -> (r: bool)
    ensures
        r == accepts_any_context(tag),
{
    !(tag == 4 || tag == 5 || tag == 30 || tag == 43000 || tag == 52 || tag == 54 || tag == 258)
}

/// Whether the value is an integer.
pub fn holds_integer(v: &Value) -> (r: bool)
    ensures
        r == is_integer(v@),
{
    match v {
        Value::Unsigned(_) | Value::Negative(_) | Value::BigUnsigned(_) | Value::BigNegative(_) => true,
        _ => false,
    }
}

/// Whether the value is a number.
pub fn holds_number(v: &Value) -> (r: bool)
    ensures
        r == is_number(v@),
{
    match v {
        Value::Float(_) => true,
        _ => holds_integer(v),
    }
}

/// The bytes brought to `width` bytes: cut off behind, or filled up with
/// zeros.
pub fn resize_bytes(bytes: &Vec<u8>, width: usize) -> (out: Vec<u8>)
    ensures
        out@ == resized(bytes@, width as nat),
{
    let mut out: Vec<u8> = Vec::new();
    let mut i: usize = 0;
    while i < width
        invariant
            i <= width,
            out@.len() == i,
            forall|j: int|
                0 <= j < i ==> out@[j] == if j < bytes@.len() {
                    bytes@[j]
                } else {
                    0u8
                },
        decreases width - i,
    {
        if i < bytes.len() {
            out.push(bytes[i]);
        } else {
            out.push(0);
        }
        i += 1;
    }
    assert(out@ =~= resized(bytes@, width as nat));
    out
}

/// The ordinal of the date that lies `days` after the epoch.
pub fn epoch_ordinal(days: &Value) -> (r: Option<Value>)
    ensures
        match r {
            Some(v) => ordinal_of(days@) == Some(v@),
            None => ordinal_of(days@) is None,
        },
{
    match crate::collections::integer_parts(days) {
        None => None,
        Some((negative, bytes)) => {
            proof {
                crate::wire::lemma_be_value_bound(bytes@);
                crate::wire::lemma_radix_values();
                if bytes@.len() > 4 {
                    crate::wire::lemma_be_value_nonzero_lead_from_minimal(bytes@);
                    crate::wire::lemma_radix_monotone(4, (bytes@.len() - 1) as nat);
                } else {
                    crate::wire::lemma_radix_monotone(bytes@.len(), 4);
                }
            }
            if bytes.len() > 4 {
                return None;
            }
            let n = crate::wire::be_to_u64(bytes.as_slice());
            if negative {
                if n >= 0x8000_0000 {
                    None
                } else if n < EPOCH_ORDINAL {
                    Some(Value::Unsigned(EPOCH_ORDINAL - 1 - n))
                } else {
                    Some(Value::Negative(n - EPOCH_ORDINAL))
                }
            } else {
                if n + EPOCH_ORDINAL <= 0x7fff_ffff {
                    Some(Value::Unsigned(n + EPOCH_ORDINAL))
                } else {
                    None
                }
            }
        },
    }
}

/// Checks the content of tag 52 or 54 and carries it on as an address, a
/// network or an interface.
pub fn address_value(
    content: Value,
    width: usize,
    zoned: bool,
    address: DomainKind,
    network: DomainKind,
    interface: DomainKind,
) -> (r: Option<Value>)
    ensures
        match r {
            Some(v) => address_form(content@, width as nat, zoned, address, network, interface)
                == Some(v@),
            None => address_form(content@, width as nat, zoned, address, network, interface)
                is None,
        },
{
    proof {
        lemma_model_unfold(content);
    }
    match content {
        Value::Bytes(b) => {
            if b.len() == width {
                Some(Value::Domain(address, Box::new(Value::Bytes(b))))
            } else {
                None
            }
        },
        Value::Tuple(mut parts) => {
            let ghost before = models(parts@);
            if !(parts.len() == 2 || (zoned && parts.len() == 3)) {
                return None;
            }
            let zone_fits = parts.len() == 2 || match &parts[2] {
                Value::Bytes(_) => true,
                other => holds_integer(other),
            };
            if !zone_fits {
                return None;
            }
            if holds_integer(&parts[0]) {
                let padded = match &parts[1] {
                    Value::Bytes(b) => resize_bytes(b, width),
                    _ => {
                        return None;
                    },
                };
                let prefix = parts[0].duplicate();
                parts.set(0, Value::Bytes(padded));
                parts.set(1, prefix);
                let inner = Value::Tuple(parts);
                proof {
                    lemma_model_unfold(inner);
                    assert(models(parts@) =~= before.update(
                        0,
                        Item::Bytes(resized(before[1]->Bytes_0, width as nat)),
                    ).update(1, before[0]));
                }
                Some(Value::Domain(network, Box::new(inner)))
            } else {
                let fits = match &parts[0] {
                    Value::Bytes(b) => b.len() == width,
                    _ => false,
                };
                if fits && holds_integer(&parts[1]) {
                    let inner = Value::Tuple(parts);
                    proof {
                        lemma_model_unfold(inner);
                    }
                    Some(Value::Domain(interface, Box::new(inner)))
                } else {
                    None
                }
            }
        },
        _ => None,
    }
}

/// Turns the content of an interpreted tag into the value it stands for,
/// where the content has the shape that the tag asks for.
pub fn shape(tag: u64, content: Value, immutable: bool) -> (r: Option<Value>)
    ensures
        match r {
            Some(v) => shaped(tag, content@, immutable) == Some(v@),
            None => shaped(tag, content@, immutable) is None,
        },
{
    proof {
        lemma_model_unfold(content);
    }
    if tag == 2 {
        match content {
            Value::Bytes(b) => Some(Value::BigUnsigned(b)),
            _ => None,
        }
    } else if tag == 3 {
        match content {
            Value::Bytes(b) => Some(Value::BigNegative(b)),
            _ => None,
        }
    } else if tag == 258 {
        match content {
            Value::Tuple(members) => {
                let unique = distinct_values(&members);
                let out = if immutable {
                    Value::FrozenSet(unique)
                } else {
                    Value::MutableSet(unique)
                };
                proof {
                    lemma_model_unfold(out);
                }
                Some(out)
            },
            _ => None,
        }
    } else if tag == 0 || tag == 35 || tag == 36 || tag == 1004 {
        let kind = if tag == 0 {
            DomainKind::DateTimeText
        } else if tag == 35 {
            DomainKind::Regexp
        } else if tag == 36 {
            DomainKind::Mime
        } else {
            DomainKind::DateText
        };
        match content {
            Value::Text(s) => Some(Value::Domain(kind, Box::new(Value::Text(s)))),
            _ => None,
        }
    } else if tag == 1 {
        if holds_number(&content) {
            Some(Value::Domain(DomainKind::EpochDateTime, Box::new(content)))
        } else {
            None
        }
    } else if tag == 4 || tag == 5 || tag == 30 || tag == 43000 {
        match content {
            Value::Tuple(parts) => {
                if parts.len() != 2 {
                    return None;
                }
                let ghost both = models(parts@);
                let numbers = holds_number(&parts[0]) && holds_number(&parts[1]);
                let integers = holds_integer(&parts[0]) && holds_integer(&parts[1]);
                let zero = parts[1].equals(&Value::Unsigned(0));
                let inner = Value::Tuple(parts);
                proof {
                    lemma_model_unfold(inner);
                }
                if tag == 43000 {
                    if numbers {
                        Some(Value::Domain(DomainKind::Complex, Box::new(inner)))
                    } else {
                        None
                    }
                } else if !integers {
                    None
                } else if tag == 4 {
                    Some(Value::Domain(DomainKind::Decimal, Box::new(inner)))
                } else if tag == 5 {
                    Some(Value::Domain(DomainKind::BigFloat, Box::new(inner)))
                } else if zero {
                    None
                } else {
                    Some(Value::Domain(DomainKind::Rational, Box::new(inner)))
                }
            },
            _ => None,
        }
    } else if tag == 37 {
        match content {
            Value::Bytes(b) => {
                if b.len() == 16 {
                    Some(Value::Domain(DomainKind::Uuid, Box::new(Value::Bytes(b))))
                } else {
                    None
                }
            },
            _ => None,
        }
    } else if tag == 52 {
        address_value(
            content,
            4,
            false,
            DomainKind::Ipv4Address,
            DomainKind::Ipv4Network,
            DomainKind::Ipv4Interface,
        )
    } else if tag == 54 {
        address_value(
            content,
            16,
            true,
            DomainKind::Ipv6Address,
            DomainKind::Ipv6Network,
            DomainKind::Ipv6Interface,
        )
    } else if tag == 100 {
        match epoch_ordinal(&content) {
            Some(ordinal) => Some(Value::Domain(DomainKind::EpochDate, Box::new(ordinal))),
            None => None,
        }
    } else if tag == 260 {
        match content {
            Value::Bytes(b) => {
                if b.len() == 4 || b.len() == 16 {
                    Some(Value::Domain(DomainKind::IpAddress, Box::new(Value::Bytes(b))))
                } else if b.len() == 6 {
                    Some(Value::Tag(260, Box::new(Value::Bytes(b))))
                } else {
                    None
                }
            },
            _ => None,
        }
    } else if tag == 261 {
        match content {
            Value::Dict(mut entries) => {
                if entries.len() != 1 {
                    return None;
                }
                let ghost only = crate::value::entry_models(entries@)[0];
                match entries.pop() {
                    None => None,
                    Some((address, mask)) => {
                        if !holds_integer(&mask) {
                            return None;
                        }
                        let mut parts: Vec<Value> = Vec::new();
                        parts.push(address);
                        parts.push(mask);
                        let inner = Value::Tuple(parts);
                        proof {
                            lemma_model_unfold(inner);
                            assert(models(parts@) =~= seq![only.0, only.1]);
                        }
                        Some(Value::Domain(DomainKind::IpNetwork, Box::new(inner)))
                    },
                }
            },
            _ => None,
        }
    } else {
        None
    }
}

/// Turns the content of an interpreted tag into the value it stands for.
pub fn interpret(tag: u64, content: Value, immutable: bool) -> (r: Result<Value, DecodeError>)
    ensures
        match (r, interpreted(tag, content@, immutable)) {
            (Ok(v), Ok(item)) => v@ == item,
            (Err(e), Err(f)) => e == f,
            _ => false,
        },
{
    proof {
        lemma_model_unfold(content);
    }
    if tag == 258 {
        let unhashable = match &content {
            Value::Tuple(members) => !all_hashable(members),
            _ => false,
        };
        if unhashable {
            return Err(DecodeError::UnhashableMember);
        }
    }
    match shape(tag, content, immutable) {
        Some(v) => Ok(v),
        None => Err(DecodeError::InvalidTagPayload { tag }),
    }
}

} // verus!
