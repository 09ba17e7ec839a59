//! Integers of any size by sign and magnitude, and decimal numbers by
//! their digits and scale. The arithmetic on magnitudes and the reading of
//! decimal text are those of `num_bigint` and `bigdecimal`.

use crate::collections::integer_parts;
use crate::collections::lemma_minimal_twice;
use crate::collections::minimal_bytes;
use crate::value::lemma_model_unfold;
use crate::value::model;
use crate::value::models;
use crate::value::DomainKind;
use crate::value::Item;
use crate::value::Value;
use crate::wire::be_minimal;
use crate::wire::be_to_u64;
use crate::wire::be_value;
use crate::wire::be_width;
use bigdecimal::BigDecimal;
use num_bigint::BigUint;
use num_bigint::Sign;
use std::str::FromStr;
use vstd::prelude::*;

verus! {

/// The sum of two natural numbers, each given and returned as big-endian
/// bytes.
///
/// Not proved: the body reads both with `BigUint::from_bytes_be`, adds
/// them with `BigUint`'s `+` and writes the sum with `BigUint::to_bytes_be`;
/// the contract claims that the bytes returned denote the sum.
#[verifier::external_body]
fn sum_of(a: &Vec<u8>, b: &Vec<u8>) -> (r: Vec<u8>)
    ensures
        be_value(r@) == be_value(a@) + be_value(b@),
{
    (BigUint::from_bytes_be(a) + BigUint::from_bytes_be(b)).to_bytes_be()
}

/// The difference of two natural numbers, each given and returned as
/// big-endian bytes.
///
/// Not proved: the body reads both with `BigUint::from_bytes_be`,
/// subtracts with `BigUint`'s `-`, which needs the first to be no less than
/// the second, and writes the difference with `BigUint::to_bytes_be`; the
/// contract claims that the bytes returned denote the difference.
#[verifier::external_body]
fn difference_of(a: &Vec<u8>, b: &Vec<u8>) -> (r: Vec<u8>)
    requires
        be_value(a@) >= be_value(b@),
    ensures
        be_value(r@) == be_value(a@) - be_value(b@),
{
    (BigUint::from_bytes_be(a) - BigUint::from_bytes_be(b)).to_bytes_be()
}

/// What `bigdecimal` reads from decimal text: whether the digits are
/// negative, the big-endian bytes of their magnitude, and the scale, which
/// is the number of digits behind the decimal point; nothing where the
/// text is no decimal number.
pub uninterp spec fn decimal_parts(text: Seq<char>) -> Option<(bool, Seq<u8>, i64)>;

/// Reads decimal text into digits and scale.
///
/// Not proved: the body parses with `BigDecimal::from_str`, splits the
/// number with `BigDecimal::as_bigint_and_exponent` and takes sign and
/// bytes of the digits with `BigInt::to_bytes_be`; the contract gives this
/// result its name, `decimal_parts` of the text.
#[verifier::external_body]
fn read_decimal(text: &str) -> (r: Option<(bool, Vec<u8>, i64)>)
    ensures
        match r {
            Some((negative, digits, scale)) => decimal_parts(text@) == Some(
                (negative, digits@, scale),
            ),
            None => decimal_parts(text@) is None,
        },
{
    match BigDecimal::from_str(text) {
        Ok(decimal) => {
            let (digits, scale) = decimal.as_bigint_and_exponent();
            let (sign, magnitude) = digits.to_bytes_be();
            let negative = match sign {
                Sign::Minus => true,
                Sign::NoSign => false,
                Sign::Plus => false,
            };
            Some((negative, magnitude, scale))
        },
        Err(_) => None,
    }
}

/// The integer with that sign and magnitude; zero has no sign.
pub open spec fn signed(negative: bool, magnitude: nat) -> Item {
    if negative && magnitude > 0 {
        Item::Negative((magnitude - 1) as nat)
    } else {
        Item::Unsigned(magnitude)
    }
}

/// The power of ten by which the digits of a decimal number are multiplied:
/// the scale with its sign turned.
pub open spec fn exponent_of(scale: i64) -> Item {
    if scale > 0 {
        Item::Negative((scale - 1) as nat)
    } else {
        Item::Unsigned((-scale) as nat)
    }
}

/// The decimal number `digits * 10^(-scale)` as the codec holds it: the
/// exponent, then the digits.
pub open spec fn decimal_item(negative: bool, digits: nat, scale: i64) -> Item {
    Item::Domain(
        DomainKind::Decimal,
        Box::new(Item::Tuple(seq![exponent_of(scale), signed(negative, digits)])),
    )
}

impl Value {
    /// The integer with that sign and the magnitude that the big-endian
    /// bytes denote, held in a machine word where it fits.
    pub fn from_sign_magnitude(negative: bool, magnitude: &Vec<u8>) -> (v: Value)
        ensures
            v@ == signed(negative, be_value(magnitude@)),
    {
        let shortest = minimal_bytes(magnitude);
        proof {
            lemma_minimal_twice(be_value(magnitude@));
            assert(be_width(0) == 0);
        }
        if negative && shortest.len() > 0 {
            let mut one: Vec<u8> = Vec::new();
            one.push(1);
            proof {
                reveal_with_fuel(be_value, 2);
                assert(one@.drop_last() =~= Seq::<u8>::empty());
                assert(be_value(one@) == 1);
            }
            let below = minimal_bytes(&difference_of(&shortest, &one));
            proof {
                lemma_minimal_twice((be_value(magnitude@) - 1) as nat);
            }
            let v = if below.len() <= 8 {
                Value::Negative(be_to_u64(below.as_slice()))
            } else {
                Value::BigNegative(below)
            };
            proof {
                lemma_model_unfold(v);
            }
            v
        } else {
            let v = if shortest.len() <= 8 {
                Value::Unsigned(be_to_u64(shortest.as_slice()))
            } else {
                Value::BigUnsigned(shortest)
            };
            proof {
                lemma_model_unfold(v);
            }
            v
        }
    }

    /// Sign and magnitude of an integer, the magnitude in its shortest
    /// big-endian bytes; nothing for a value that is no integer.
    pub fn sign_magnitude(&self) -> (r: Option<(bool, Vec<u8>)>)
        ensures
            match r {
                Some((negative, magnitude)) => {
                    &&& self@ == signed(negative, be_value(magnitude@))
                    &&& negative ==> be_value(magnitude@) > 0
                    &&& magnitude@ == be_minimal(be_value(magnitude@))
                },
                None => !(self@ is Unsigned) && !(self@ is Negative),
            },
    {
        match integer_parts(self) {
            None => None,
            Some((negative, bytes)) => {
                if negative {
                    let mut one: Vec<u8> = Vec::new();
                    one.push(1);
                    proof {
                        reveal_with_fuel(be_value, 2);
                        assert(one@.drop_last() =~= Seq::<u8>::empty());
                        assert(be_value(one@) == 1);
                    }
                    let above = sum_of(&bytes, &one);
                    let magnitude = minimal_bytes(&above);
                    proof {
                        lemma_minimal_twice(be_value(above@));
                    }
                    Some((true, magnitude))
                } else {
                    Some((false, bytes))
                }
            },
        }
    }

    /// The decimal number with those digits and that scale.
    pub fn decimal_of_parts(negative: bool, digits: &Vec<u8>, scale: i64) -> (v: Value)
        ensures
            v@ == decimal_item(negative, be_value(digits@), scale),
    {
        let exponent = if scale > 0 {
            Value::Negative((scale - 1) as u64)
        } else if scale == 0 {
            Value::Unsigned(0)
        } else {
            Value::Unsigned((-(scale + 1)) as u64 + 1)
        };
        let number = Value::from_sign_magnitude(negative, digits);
        proof {
            lemma_model_unfold(exponent);
        }
        let mut parts: Vec<Value> = Vec::new();
        parts.push(exponent);
        parts.push(number);
        let ghost listed = parts@;
        let content = Value::Tuple(parts);
        proof {
            lemma_model_unfold(content);
            assert(model(listed[0]) == exponent_of(scale));
            assert(model(listed[1]) == number@);
            assert(models(listed) =~= seq![
                exponent_of(scale),
                signed(negative, be_value(digits@)),
            ]);
        }
        let v = Value::Domain(DomainKind::Decimal, Box::new(content));
        proof {
            lemma_model_unfold(v);
        }
        v
    }

    /// The decimal number that the text denotes; nothing where the text
    /// is no decimal number.
    pub fn decimal(text: &str) -> (r: Option<Value>)
        ensures
            match decimal_parts(text@) {
                Some((negative, digits, scale)) => r matches Some(v) && v@ == decimal_item(
                    negative,
                    be_value(digits),
                    scale,
                ),
                None => r is None,
            },
    {
        match read_decimal(text) {
            Some((negative, digits, scale)) => Some(
                Value::decimal_of_parts(negative, &digits, scale),
            ),
            None => None,
        }
    }
}

} // verus!
