//! IEEE 754 binary floating-point numbers as bit patterns.
//!
//! A number is held by the bits of its double-precision form. The wire
//! format also carries half and single precision; this module widens those
//! to double precision and finds the narrowest form that holds a double
//! exactly, in integer arithmetic throughout.

use vstd::arithmetic::power2::pow2;
use vstd::prelude::*;

verus! {

/// A binary interchange format narrower than double precision.
#[derive(Clone, Copy, PartialEq, Eq, Debug)]
pub enum Precision {
    Half,
    Single,
}

impl Precision {
    /// Number of stored significand bits.
    pub open spec fn fraction_bits(self) -> nat {
        match self {
            Precision::Half => 10,
            Precision::Single => 23,
        }
    }

    /// Two to the number of stored significand bits.
    pub open spec fn fraction_limit(self) -> nat {
        match self {
            Precision::Half => 0x400,
            Precision::Single => 0x80_0000,
        }
    }

    /// Number of values of the exponent field.
    pub open spec fn exponent_count(self) -> nat {
        match self {
            Precision::Half => 32,
            Precision::Single => 256,
        }
    }

    /// The exponent field of a double that holds the format's smallest
    /// normal number.
    pub open spec fn least_normal(self) -> nat {
        match self {
            Precision::Half => 1009,
            Precision::Single => 897,
        }
    }

    /// Factor between the format's fraction and a double's fraction.
    pub open spec fn lift(self) -> nat {
        match self {
            Precision::Half => 0x400_0000_0000,
            Precision::Single => 0x2000_0000,
        }
    }

    /// Number of bit patterns of the format.
    pub open spec fn pattern_count(self) -> nat {
        2 * self.exponent_count() * self.fraction_limit()
    }

    fn fraction_limit_exec(self) -> (r: u64)
        ensures
            r == self.fraction_limit(),
    {
        match self {
            Precision::Half => 0x400,
            Precision::Single => 0x80_0000,
        }
    }

    fn exponent_count_exec(self) -> (r: u64)
        ensures
            r == self.exponent_count(),
    {
        match self {
            Precision::Half => 32,
            Precision::Single => 256,
        }
    }

    fn least_normal_exec(self) -> (r: u64)
        ensures
            r == self.least_normal(),
    {
        match self {
            Precision::Half => 1009,
            Precision::Single => 897,
        }
    }

    fn lift_exec(self) -> (r: u64)
        ensures
            r == self.lift(),
    {
        match self {
            Precision::Half => 0x400_0000_0000,
            Precision::Single => 0x2000_0000,
        }
    }
}

pub const SIGN_BIT: u64 = 0x8000_0000_0000_0000;

pub const FRACTION_LIMIT: u64 = 0x10_0000_0000_0000;

pub const INFINITY_BITS: u64 = 0x7ff0_0000_0000_0000;

pub const QUIET_BIT: u64 = 0x8_0000_0000_0000;

/// The bits of the canonical quiet NaN in double precision.
pub const NAN_BITS: u64 = 0x7ff8_0000_0000_0000;

/// The exponent field of a double.
pub open spec fn exponent_field(d: u64) -> nat {
    (d as nat / FRACTION_LIMIT as nat) % 2048
}

/// The fraction field of a double.
pub open spec fn fraction_field(d: u64) -> nat {
    d as nat % FRACTION_LIMIT as nat
}

/// Whether the double is a NaN.
pub open spec fn is_nan(d: u64) -> bool {
    exponent_field(d) == 2047 && fraction_field(d) != 0
}

/// Whether the double is positive or negative infinity.
pub open spec fn is_infinite(d: u64) -> bool {
    exponent_field(d) == 2047 && fraction_field(d) == 0
}

/// Whether the sign bit of the double is set.
pub open spec fn is_negative(d: u64) -> bool {
    d as nat >= SIGN_BIT
}

/// Doubles a nonzero subnormal fraction until it reaches `limit`; the result
/// is the fraction reached and the number of doublings.
pub open spec fn normalize(fraction: nat, limit: nat, steps: nat) -> (nat, nat)
    decreases limit - fraction,
{
    if 0 < fraction < limit {
        if 2 * fraction >= limit {
            (2 * fraction, steps + 1)
        } else {
            normalize(2 * fraction, limit, steps + 1)
        }
    } else {
        (fraction, steps)
    }
}

/// The double that has the value of the narrower pattern `x`. A NaN keeps
/// its sign and payload and becomes quiet.
#[verifier::opaque]
pub open spec fn widen(p: Precision, x: nat) -> u64 {
    let limit = p.fraction_limit();
    let sign: nat = if x / limit / p.exponent_count() % 2 == 1 {
        SIGN_BIT as nat
    } else {
        0
    };
    let e = (x / limit) % p.exponent_count();
    let m = x % limit;
    if e == p.exponent_count() - 1 {
        if m == 0 {
            (sign + INFINITY_BITS) as u64
        } else if m * p.lift() >= QUIET_BIT {
            (sign + INFINITY_BITS + m * p.lift()) as u64
        } else {
            (sign + INFINITY_BITS + QUIET_BIT + m * p.lift()) as u64
        }
    } else if e == 0 {
        if m == 0 {
            sign as u64
        } else {
            let (n, k) = normalize(m, limit, 0);
            (sign + (p.least_normal() - k) * FRACTION_LIMIT + (n - limit) * p.lift()) as u64
        }
    } else {
        (sign + (e + p.least_normal() - 1) * FRACTION_LIMIT + m * p.lift()) as u64
    }
}

/// The double of a half-precision pattern.
pub open spec fn half_to_double(h: u16) -> u64 {
    widen(Precision::Half, h as nat)
}

/// The double of a single-precision pattern.
pub open spec fn single_to_double(s: u32) -> u64 {
    widen(Precision::Single, s as nat)
}

/// The pattern of the narrower format that is nearest to the double from
/// below in magnitude, for a double that is no NaN.
#[verifier::opaque]
pub open spec fn truncated(p: Precision, d: u64) -> nat {
    let sign: nat = if is_negative(d) {
        p.exponent_count() * p.fraction_limit()
    } else {
        0
    };
    let e = exponent_field(d);
    let m = fraction_field(d);
    if e == 2047 {
        (sign + (p.exponent_count() - 1) * p.fraction_limit()) as nat
    } else if e >= p.least_normal() {
        if e - p.least_normal() + 1 < p.exponent_count() - 1 {
            (sign + (e - p.least_normal() + 1) * p.fraction_limit() + m / p.lift()) as nat
        } else {
            sign
        }
    } else if e + p.fraction_bits() >= p.least_normal() {
        sign + ((FRACTION_LIMIT + m) as nat) / (p.lift() * pow2((p.least_normal() - e) as nat))
    } else {
        sign
    }
}

/// The pattern of the narrower format that holds the double exactly, where
/// there is one. A NaN has none.
#[verifier::opaque]
pub open spec fn narrow(p: Precision, d: u64) -> Option<nat> {
    let c = truncated(p, d);
    if !is_nan(d) && c < p.pattern_count() && widen(p, c) == d {
        Some(c)
    } else {
        None
    }
}

proof fn lemma_normalize_bounds(fraction: nat, limit: nat, steps: nat)
    requires
        0 < fraction < limit,
        limit == 0x400 || limit == 0x80_0000,
    ensures
        limit <= normalize(fraction, limit, steps).0 < 2 * limit,
        steps < normalize(fraction, limit, steps).1 <= steps + 23,
        limit == 0x400 ==> normalize(fraction, limit, steps).1 <= steps + 10,
        normalize(fraction, limit, steps).0 == fraction * pow2(
            (normalize(fraction, limit, steps).1 - steps) as nat,
        ),
    decreases limit - fraction,
{
    vstd::arithmetic::power2::lemma2_to64();
    if 2 * fraction >= limit {
        assert(fraction * pow2(1) == 2 * fraction) by (nonlinear_arith)
            requires
                pow2(1) == 2,
        ;
    } else {
        lemma_normalize_bounds(2 * fraction, limit, steps + 1);
        let r = normalize(2 * fraction, limit, steps + 1);
        let k = (r.1 - steps - 1) as nat;
        vstd::arithmetic::power2::lemma_pow2_unfold(k + 1);
        assert(pow2(k + 1) == 2 * pow2(k));
        assert(2 * fraction * pow2(k) == fraction * pow2(k + 1)) by (nonlinear_arith)
            requires
                pow2(k + 1) == 2 * pow2(k),
        ;
        assert((normalize(fraction, limit, steps).1 - steps) as nat == k + 1);
        lemma_doublings_bound(fraction, limit, k + 1);
    }
}

proof fn lemma_doublings_bound(fraction: nat, limit: nat, k: nat)
    requires
        0 < fraction,
        fraction * pow2(k) < 2 * limit,
        limit == 0x400 || limit == 0x80_0000,
    ensures
        k <= 23,
        limit == 0x400 ==> k <= 10,
{
    vstd::arithmetic::power2::lemma2_to64();
    if k > 10 {
        vstd::arithmetic::power2::lemma_pow2_strictly_increases(10, k);
    }
    if k > 23 {
        vstd::arithmetic::power2::lemma_pow2_strictly_increases(23, k);
    }
    assert(fraction * pow2(k) >= pow2(k)) by (nonlinear_arith)
        requires
            fraction >= 1,
    ;
    if limit == 0x400 && k > 10 {
        vstd::arithmetic::power2::lemma_pow2_strictly_increases(11, k + 1);
        assert(pow2(11) == 0x800);
        if k > 11 {
            vstd::arithmetic::power2::lemma_pow2_strictly_increases(11, k);
        }
    }
    if k > 23 {
        assert(pow2(24) == 0x100_0000);
        if k > 24 {
            vstd::arithmetic::power2::lemma_pow2_strictly_increases(24, k);
        }
    }
}

/// Widens a pattern of the narrower format to the bits of a double.
pub fn widen_bits(p: Precision, x: u64) -> (d: u64)
    requires
        x < p.pattern_count(),
    ensures
        d == widen(p, x as nat),
{
    proof {
        reveal(widen);
    }
    let limit = p.fraction_limit_exec();
    let count = p.exponent_count_exec();
    let lift = p.lift_exec();
    let sign: u64 = if x / limit / count % 2 == 1 {
        0x8000_0000_0000_0000
    } else {
        0
    };
    let e = (x / limit) % count;
    let m = x % limit;
    if e == count - 1 {
        if m == 0 {
            sign + 0x7ff0_0000_0000_0000
        } else if m * lift >= 0x8_0000_0000_0000 {
            sign + 0x7ff0_0000_0000_0000 + m * lift
        } else {
            sign + 0x7ff8_0000_0000_0000 + m * lift
        }
    } else if e == 0 {
        if m == 0 {
            sign
        } else {
            let mut n: u64 = m;
            let mut k: u64 = 0;
            while n < limit
                invariant
                    0 < n < 2 * limit,
                    limit == p.fraction_limit(),
                    k <= 23,
                    normalize(n as nat, limit as nat, k as nat) == normalize(
                        m as nat,
                        limit as nat,
                        0,
                    ),
                decreases 2 * limit - n,
            {
                proof {
                    lemma_normalize_bounds(n as nat, limit as nat, k as nat);
                    lemma_normalize_bounds(m as nat, limit as nat, 0);
                }
                n = 2 * n;
                k = k + 1;
            }
            proof {
                lemma_normalize_bounds(m as nat, limit as nat, 0);
            }
            sign + (p.least_normal_exec() - k) * 0x10_0000_0000_0000 + (n - limit) * lift
        }
    } else {
        sign + (e + p.least_normal_exec() - 1) * 0x10_0000_0000_0000 + m * lift
    }
}

/// The bits of the double that a half-precision pattern denotes.
pub fn half_bits_to_double(h: u16) -> (d: u64)
    ensures
        d == half_to_double(h),
{
    widen_bits(Precision::Half, h as u64)
}

/// The bits of the double that a single-precision pattern denotes.
pub fn single_bits_to_double(s: u32) -> (d: u64)
    ensures
        d == single_to_double(s),
{
    widen_bits(Precision::Single, s as u64)
}

/// Whether the bits are those of a NaN.
pub fn bits_are_nan(d: u64) -> (r: bool)
    ensures
        r == is_nan(d),
{
    (d / 0x10_0000_0000_0000) % 2048 == 2047 && d % 0x10_0000_0000_0000 != 0
}

/// Whether the bits are those of an infinity.
pub fn bits_are_infinite(d: u64) -> (r: bool)
    ensures
        r == is_infinite(d),
{
    (d / 0x10_0000_0000_0000) % 2048 == 2047 && d % 0x10_0000_0000_0000 == 0
}

/// Whether the sign bit is set.
pub fn bits_are_negative(d: u64) -> (r: bool)
    ensures
        r == is_negative(d),
{
    d >= 0x8000_0000_0000_0000
}

/// Finds the pattern of the narrower format that holds the double exactly.
pub fn narrow_bits(p: Precision, d: u64) -> (r: Option<u64>)
    ensures
        match r {
            Some(x) => narrow(p, d) == Some(x as nat),
            None => narrow(p, d) is None,
        },
{
    proof {
        reveal(narrow);
        reveal(truncated);
    }
    if bits_are_nan(d) {
        return None;
    }
    let limit = p.fraction_limit_exec();
    let count = p.exponent_count_exec();
    let lift = p.lift_exec();
    let least = p.least_normal_exec();
    let sign: u64 = if d >= 0x8000_0000_0000_0000 {
        count * limit
    } else {
        0
    };
    let e = (d / 0x10_0000_0000_0000) % 2048;
    let m = d % 0x10_0000_0000_0000;
    let fraction_bits: u64 = match p {
        Precision::Half => 10,
        Precision::Single => 23,
    };
    let c: u64 = if e == 2047 {
        sign + (count - 1) * limit
    } else if e >= least {
        if e - least + 1 < count - 1 {
            let q = e - least + 1;
            proof {
                assert(q * limit <= 0x7f00_0000 && sign <= 0x8000_0000) by (nonlinear_arith)
                    requires
                        (limit == 0x400 && q < 31 && sign <= 32 * 0x400) || (limit == 0x80_0000
                            && q < 255 && sign <= 256 * 0x80_0000),
                ;
                assert(m / lift <= m);
            }
            sign + q * limit + m / lift
        } else {
            sign
        }
    } else if e + fraction_bits >= least {
        let mut divisor: u64 = lift;
        let mut j: u64 = 0;
        proof {
            vstd::arithmetic::power2::lemma2_to64();
        }
        while j < least - e
            invariant
                j <= least - e <= 23,
                lift == p.lift(),
                divisor == lift * pow2(j as nat),
                divisor <= 0x10_0000_0000_0000,
                p == Precision::Half ==> least - e <= 10,
            decreases least - e - j,
        {
            proof {
                vstd::arithmetic::power2::lemma2_to64();
                vstd::arithmetic::power2::lemma_pow2_unfold((j + 1) as nat);
                assert(lift * (2 * pow2(j as nat)) == 2 * (lift * pow2(j as nat)))
                    by (nonlinear_arith);
                if p == Precision::Half {
                    if j < 10 {
                        vstd::arithmetic::power2::lemma_pow2_strictly_increases(j as nat, 10);
                    }
                    assert(pow2(j as nat) <= 0x200) by {
                        if j + 1 < 10 {
                            vstd::arithmetic::power2::lemma_pow2_strictly_increases(
                                (j + 1) as nat,
                                10,
                            );
                        }
                    }
                } else {
                    assert(pow2(j as nat) <= 0x40_0000) by {
                        if j + 1 < 23 {
                            vstd::arithmetic::power2::lemma_pow2_strictly_increases(
                                (j + 1) as nat,
                                23,
                            );
                        }
                    }
                }
                assert(lift * pow2(j as nat) <= 0x8_0000_0000_0000) by (nonlinear_arith)
                    requires
                        (lift == 0x400_0000_0000 && pow2(j as nat) <= 0x200) || (lift
                            == 0x2000_0000 && pow2(j as nat) <= 0x40_0000),
                ;
            }
            divisor = 2 * divisor;
            j = j + 1;
        }
        proof {
            vstd::arithmetic::power2::lemma_pow2_pos(j as nat);
            assert(divisor > 0) by (nonlinear_arith)
                requires
                    divisor == lift * pow2(j as nat),
                    lift > 0,
                    pow2(j as nat) > 0,
            ;
        }
        sign + (0x10_0000_0000_0000 + m) / divisor
    } else {
        sign
    };
    proof {
        vstd::arithmetic::power2::lemma2_to64();
    }
    if c < 2 * count * limit && widen_bits(p, c) == d {
        Some(c)
    } else {
        None
    }
}

} // verus!
