//! The order in which the encoder asks what kind of value it has before
//! it: a value that fits several kinds is of the first that it fits.

use vstd::prelude::*;

verus! {

/// The kinds of value that the encoder tells apart, in the order in which
/// it asks for them.
#[derive(Clone, Copy, PartialEq, Eq, Structural, Debug)]
pub enum Kind {
    Bytes,
    Text,
    Bool,
    Integer,
    Float,
    Complex,
    ByteArray,
    Null,
    Undefined,
    BreakMarker,
    Mapping,
    Sequence,
    MutableSet,
    FrozenSet,
    SimpleValue,
    Tag,
    /// None of the kinds before: a domain value, or a value without
    /// encoding.
    Other,
}

/// Number of kinds that are asked for by a test of their own.
pub const KINDS: usize = 16;

/// The kind in place `i` of the order; `Other` behind the last.
pub open spec fn kind_at(i: nat) -> Kind {
    if i == 0 {
        Kind::Bytes
    } else if i == 1 {
        Kind::Text
    } else if i == 2 {
        Kind::Bool
    } else if i == 3 {
        Kind::Integer
    } else if i == 4 {
        Kind::Float
    } else if i == 5 {
        Kind::Complex
    } else if i == 6 {
        Kind::ByteArray
    } else if i == 7 {
        Kind::Null
    } else if i == 8 {
        Kind::Undefined
    } else if i == 9 {
        Kind::BreakMarker
    } else if i == 10 {
        Kind::Mapping
    } else if i == 11 {
        Kind::Sequence
    } else if i == 12 {
        Kind::MutableSet
    } else if i == 13 {
        Kind::FrozenSet
    } else if i == 14 {
        Kind::SimpleValue
    } else if i == 15 {
        Kind::Tag
    } else {
        Kind::Other
    }
}

/// The first place at or behind `from` whose test the value passes; the
/// number of tests where it passes none.
pub open spec fn first_fit(fits: Seq<bool>, from: nat) -> nat
    decreases fits.len() - from,
{
    if from >= fits.len() {
        fits.len()
    } else if fits[from as int] {
        from
    } else {
        first_fit(fits, from + 1)
    }
}

/// The kind of a value, from the outcome of the test for each kind in the
/// order of the kinds: the first kind whose test it passes. Tests that are
/// missing at the end count as failed.
pub open spec fn kind_of(fits: Seq<bool>) -> Kind {
    if first_fit(fits, 0) < fits.len() {
        kind_at(first_fit(fits, 0))
    } else {
        Kind::Other
    }
}

/// The kind in place `i` of the order.
pub fn kind_in_place(i: usize) -> (k: Kind)
    ensures
        k == kind_at(i as nat),
{
    if i == 0 {
        Kind::Bytes
    } else if i == 1 {
        Kind::Text
    } else if i == 2 {
        Kind::Bool
    } else if i == 3 {
        Kind::Integer
    } else if i == 4 {
        Kind::Float
    } else if i == 5 {
        Kind::Complex
    } else if i == 6 {
        Kind::ByteArray
    } else if i == 7 {
        Kind::Null
    } else if i == 8 {
        Kind::Undefined
    } else if i == 9 {
        Kind::BreakMarker
    } else if i == 10 {
        Kind::Mapping
    } else if i == 11 {
        Kind::Sequence
    } else if i == 12 {
        Kind::MutableSet
    } else if i == 13 {
        Kind::FrozenSet
    } else if i == 14 {
        Kind::SimpleValue
    } else if i == 15 {
        Kind::Tag
    } else {
        Kind::Other
    }
}

/// The kind of a value, from the outcome of the test for each kind.
pub fn choose_kind(fits: &Vec<bool>) -> (k: Kind)
    ensures
        k == kind_of(fits@),
{
    let mut i: usize = 0;
    while i < fits.len() && !fits[i]
        invariant
            i <= fits@.len(),
            first_fit(fits@, i as nat) == first_fit(fits@, 0),
        decreases fits@.len() - i,
    {
        i += 1;
    }
    if i < fits.len() {
        kind_in_place(i)
    } else {
        Kind::Other
    }
}

/// A value that is a truth value and an integer at once, as the truth
/// values of some languages are, is written as a truth value; and a value
/// that is text and a sequence at once is written as text.
pub proof fn law_first_kind_wins(fits: Seq<bool>)
    requires
        fits.len() == KINDS,
    ensures
        fits[2] && !fits[0] && !fits[1] ==> kind_of(fits) == Kind::Bool,
        fits[1] && !fits[0] ==> kind_of(fits) == Kind::Text,
        fits[0] ==> kind_of(fits) == Kind::Bytes,
{
    reveal_with_fuel(first_fit, 4);
}

} // verus!
