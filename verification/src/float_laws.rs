//! What holds of widening and narrowing floating-point numbers.

use crate::emit::float_bytes;
use crate::floats::exponent_field;
use crate::floats::fraction_field;
use crate::floats::half_to_double;
use crate::floats::is_infinite;
use crate::floats::is_nan;
use crate::floats::is_negative;
use crate::floats::narrow;
use crate::floats::normalize;
use crate::floats::single_to_double;
use crate::floats::truncated;
use crate::floats::widen;
use crate::floats::Precision;
use crate::wire::lemma_be_bytes_len;
use vstd::arithmetic::power2::lemma2_to64;
use vstd::arithmetic::power2::lemma_pow2_strictly_increases;
use vstd::arithmetic::power2::lemma_pow2_unfold;
use vstd::arithmetic::power2::pow2;
use vstd::prelude::*;

verus! {

/// Whether the pattern of the narrower format is a NaN.
pub open spec fn pattern_is_nan(p: Precision, x: nat) -> bool {
    (x / p.fraction_limit()) % p.exponent_count() == p.exponent_count() - 1 && x
        % p.fraction_limit() != 0
}

/// The fields of a double that is put together from sign, exponent and
/// fraction.
proof fn lemma_double_fields(sign: nat, e: nat, m: nat)
    requires
        sign == 0 || sign == 0x8000_0000_0000_0000,
        e < 2048,
        m < 0x10_0000_0000_0000,
    ensures
        sign + e * 0x10_0000_0000_0000 + m < 0x1_0000_0000_0000_0000,
        exponent_field((sign + e * 0x10_0000_0000_0000 + m) as u64) == e,
        fraction_field((sign + e * 0x10_0000_0000_0000 + m) as u64) == m,
        is_negative((sign + e * 0x10_0000_0000_0000 + m) as u64) == (sign != 0),
{
    let d = sign + e * 0x10_0000_0000_0000 + m;
    assert(d < 0x1_0000_0000_0000_0000);
    let q: nat = if sign == 0 {
        e
    } else {
        (2048 + e) as nat
    };
    assert(d == q * 0x10_0000_0000_0000 + m);
    assert(d / 0x10_0000_0000_0000 == q && d % 0x10_0000_0000_0000 == m) by {
        vstd::arithmetic::div_mod::lemma_fundamental_div_mod_converse(
            d as int,
            0x10_0000_0000_0000,
            q as int,
            m as int,
        );
    }
    assert(q % 2048 == e);
}

/// The doublings of a subnormal fraction: how many there are and where
/// they end.
proof fn lemma_normalize(p: Precision, m: nat, steps: nat)
    requires
        0 < m < p.fraction_limit(),
    ensures
        ({
            let (n, k) = normalize(m, p.fraction_limit(), steps);
            &&& p.fraction_limit() <= n < 2 * p.fraction_limit()
            &&& steps < k <= steps + p.fraction_bits()
            &&& n == m * pow2((k - steps) as nat)
        }),
    decreases p.fraction_limit() - m,
{
    let limit = p.fraction_limit();
    lemma2_to64();
    if 2 * m >= limit {
        assert(m * pow2(1) == 2 * m) by (nonlinear_arith)
            requires
                pow2(1) == 2,
        ;
    } else {
        lemma_normalize(p, 2 * m, steps + 1);
        let (n, k) = normalize(2 * m, limit, steps + 1);
        let j = (k - steps - 1) as nat;
        lemma_pow2_unfold(j + 1);
        assert(2 * m * pow2(j) == m * pow2(j + 1)) by (nonlinear_arith)
            requires
                pow2(j + 1) == 2 * pow2(j),
        ;
        assert((k - steps) as nat == j + 1);
        // m >= 1 and m * 2^(j+1) < 2 * limit bound the doublings
        assert(pow2(j + 1) <= m * pow2(j + 1)) by (nonlinear_arith)
            requires
                m >= 1,
        ;
        if j + 1 > p.fraction_bits() {
            lemma_pow2_strictly_increases(p.fraction_bits(), j + 1);
            if j + 1 > p.fraction_bits() + 1 {
            }
            assert(pow2(10) == 0x400 && pow2(23) == 0x80_0000);
            lemma_pow2_unfold(j + 1);
            assert(pow2(j) >= pow2(p.fraction_bits())) by {
                if j > p.fraction_bits() {
                    lemma_pow2_strictly_increases(p.fraction_bits(), j);
                }
            }
        }
    }
}

/// Narrowing what was widened gives the pattern back: every pattern of
/// the narrower format that is no NaN is the narrow form of its double.
pub proof fn lemma_narrow_of_widen(p: Precision, x: nat)
    requires
        x < p.pattern_count(),
        !pattern_is_nan(p, x),
    ensures
        !is_nan(widen(p, x)),
        narrow(p, widen(p, x)) == Some(x),
{
    reveal(widen);
    reveal(truncated);
    reveal(narrow);
    lemma2_to64();
    let limit = p.fraction_limit();
    let count = p.exponent_count();
    let least = p.least_normal();
    let lift = p.lift();
    let top = x / limit / count;
    let e = (x / limit) % count;
    let m = x % limit;
    assert(limit * lift == 0x10_0000_0000_0000);
    // the three fields of the pattern
    assert(x / limit < 2 * count) by {
        vstd::arithmetic::div_mod::lemma_div_by_multiple_is_strongly_ordered(
            x as int,
            (2 * count * limit) as int,
            (2 * count) as int,
            limit as int,
        );
        vstd::arithmetic::div_mod::lemma_div_by_multiple((2 * count) as int, limit as int);
        assert(2 * count * limit == (2 * count) * limit);
        assert((2 * count) * limit / limit == 2 * count) by {
            vstd::arithmetic::div_mod::lemma_div_multiples_vanish((2 * count) as int, limit as int);
        }
    }
    assert(top == 0 || top == 1);
    assert(x / limit == top * count + e);
    assert(x == (x / limit) * limit + m) by {
        vstd::arithmetic::div_mod::lemma_fundamental_div_mod(x as int, limit as int);
    }
    let sign: nat = if top % 2 == 1 {
        0x8000_0000_0000_0000
    } else {
        0
    };
    let low: nat = if top == 1 {
        count * limit
    } else {
        0
    };
    assert(x == low + e * limit + m) by (nonlinear_arith)
        requires
            x == (x / limit) * limit + m,
            x / limit == top * count + e,
            low == if top == 1 {
                count * limit
            } else {
                0
            },
            top == 0 || top == 1,
    ;
    assert(m * lift < 0x10_0000_0000_0000) by (nonlinear_arith)
        requires
            m < limit,
            limit * lift == 0x10_0000_0000_0000,
            lift > 0,
    ;
    if e == count - 1 {
        assert(m == 0);
        lemma_double_fields(sign, 2047, 0);
        let d = widen(p, x);
        assert(d == (sign + 2047 * 0x10_0000_0000_0000 + 0) as u64);
        assert(truncated(p, d) == x);
    } else if e == 0 {
        if m == 0 {
            lemma_double_fields(sign, 0, 0);
            let d = widen(p, x);
            assert(d == (sign + 0 * 0x10_0000_0000_0000 + 0) as u64);
            assert(truncated(p, d) == x);
        } else {
            lemma_normalize(p, m, 0);
            let (n, k) = normalize(m, limit, 0);
            let fraction = ((n - limit) * lift) as nat;
            assert(fraction < 0x10_0000_0000_0000 && fraction + 0x10_0000_0000_0000 == n * lift)
                by (nonlinear_arith)
                requires
                    limit <= n < 2 * limit,
                    limit * lift == 0x10_0000_0000_0000,
                    lift > 0,
                    fraction == (n - limit) * lift,
            ;
            let field = (least - k) as nat;
            lemma_double_fields(sign, field, fraction);
            let d = widen(p, x);
            assert(d == (sign + field * 0x10_0000_0000_0000 + fraction) as u64);
            let divisor = lift * pow2(k);
            vstd::arithmetic::power2::lemma_pow2_pos(k);
            assert((0x10_0000_0000_0000 + fraction) as nat / divisor == m) by {
                assert(0x10_0000_0000_0000 + fraction == m * divisor) by (nonlinear_arith)
                    requires
                        fraction + 0x10_0000_0000_0000 == n * lift,
                        n == m * pow2(k),
                        divisor == lift * pow2(k),
                ;
                assert(divisor > 0) by (nonlinear_arith)
                    requires
                        divisor == lift * pow2(k),
                        lift > 0,
                        pow2(k) > 0,
                ;
                vstd::arithmetic::div_mod::lemma_div_multiples_vanish(m as int, divisor as int);
                assert(m * divisor == divisor * m) by (nonlinear_arith);
            }
            assert((least - field) as nat == k);
            assert(truncated(p, d) == x);
        }
    } else {
        let field = (e + least - 1) as nat;
        lemma_double_fields(sign, field, m * lift);
        let d = widen(p, x);
        assert(d == (sign + field * 0x10_0000_0000_0000 + m * lift) as u64);
        assert((m * lift) / lift == m) by {
            vstd::arithmetic::div_mod::lemma_div_multiples_vanish(m as int, lift as int);
            assert(m * lift == lift * m) by (nonlinear_arith);
        }
        assert(truncated(p, d) == x);
    }
}

/// What narrows to a pattern is the double of that pattern.
pub proof fn lemma_widen_of_narrow(p: Precision, d: u64, x: nat)
    requires
        narrow(p, d) == Some(x),
    ensures
        x < p.pattern_count(),
        widen(p, x) == d,
        !is_nan(d),
{
    reveal(narrow);
}

/// A double has a narrow form exactly if it is the double of a pattern of
/// the narrow format that is no NaN.
pub proof fn lemma_narrow_exists(p: Precision, d: u64)
    ensures
        narrow(p, d) is Some <==> exists|x: nat|
            x < p.pattern_count() && !pattern_is_nan(p, x) && #[trigger] widen(p, x) == d,
{
    if narrow(p, d) is Some {
        let x = narrow(p, d)->0;
        lemma_widen_of_narrow(p, d, x);
        if pattern_is_nan(p, x) {
            lemma_widen_of_nan(p, x);
        }
    }
    if exists|x: nat| x < p.pattern_count() && !pattern_is_nan(p, x) && #[trigger] widen(p, x) == d {
        let x = choose|x: nat|
            x < p.pattern_count() && !pattern_is_nan(p, x) && #[trigger] widen(p, x) == d;
        lemma_narrow_of_widen(p, x);
    }
}

/// The double of a NaN is a NaN.
pub proof fn lemma_widen_of_nan(p: Precision, x: nat)
    requires
        x < p.pattern_count(),
        pattern_is_nan(p, x),
    ensures
        is_nan(widen(p, x)),
{
    reveal(widen);
    let limit = p.fraction_limit();
    let count = p.exponent_count();
    let lift = p.lift();
    let top = x / limit / count;
    let m = x % limit;
    let sign: nat = if top % 2 == 1 {
        0x8000_0000_0000_0000
    } else {
        0
    };
    assert(m * lift < 0x10_0000_0000_0000 && m * lift >= lift) by (nonlinear_arith)
        requires
            0 < m < limit,
            limit * lift == 0x10_0000_0000_0000,
            lift > 0,
    ;
    if m * lift >= 0x8_0000_0000_0000 {
        lemma_double_fields(sign, 2047, m * lift);
    } else {
        lemma_double_fields(sign, 2047, 0x8_0000_0000_0000 + m * lift);
    }
}

/// In canonical mode a number that is neither NaN nor infinite takes 3
/// bytes if it is the double of a half-precision number, 5 bytes if it is
/// not but is the double of a single-precision number, and 9 bytes
/// otherwise.
pub proof fn law_canonical_float_width(d: u64)
    requires
        !is_nan(d),
        !is_infinite(d),
    ensures
        ({
            let half = exists|h: u16| #[trigger] half_to_double(h) == d;
            let single = exists|s: u32| #[trigger] single_to_double(s) == d;
            float_bytes(d, true).len() == if half {
                3nat
            } else if single {
                5nat
            } else {
                9nat
            }
        }),
{
    reveal(float_bytes);
    lemma_narrow_exists(Precision::Half, d);
    lemma_narrow_exists(Precision::Single, d);
    if narrow(Precision::Half, d) is Some {
        let x = narrow(Precision::Half, d)->0;
        lemma_widen_of_narrow(Precision::Half, d, x);
        assert(half_to_double(x as u16) == d);
        lemma_be_bytes_len(x, 2);
    } else {
        if exists|h: u16| #[trigger] half_to_double(h) == d {
            let h = choose|h: u16| #[trigger] half_to_double(h) == d;
            if pattern_is_nan(Precision::Half, h as nat) {
                lemma_widen_of_nan(Precision::Half, h as nat);
            }
            assert(widen(Precision::Half, h as nat) == d);
        }
        if narrow(Precision::Single, d) is Some {
            let x = narrow(Precision::Single, d)->0;
            lemma_widen_of_narrow(Precision::Single, d, x);
            assert(single_to_double(x as u32) == d);
            lemma_be_bytes_len(x, 4);
        } else {
            if exists|s: u32| #[trigger] single_to_double(s) == d {
                let s = choose|s: u32| #[trigger] single_to_double(s) == d;
                if pattern_is_nan(Precision::Single, s as nat) {
                    lemma_widen_of_nan(Precision::Single, s as nat);
                }
                assert(widen(Precision::Single, s as nat) == d);
            }
            lemma_be_bytes_len(d as nat, 8);
        }
    }
}

/// Outside canonical mode a number that is neither NaN nor infinite takes
/// 9 bytes; NaN and the infinities take 3 in either mode.
pub proof fn law_float_width(d: u64, canonical: bool)
    ensures
        is_nan(d) || is_infinite(d) ==> float_bytes(d, canonical).len() == 3,
        !canonical && !is_nan(d) && !is_infinite(d) ==> float_bytes(d, canonical).len() == 9,
{
    reveal(float_bytes);
    lemma_be_bytes_len(d as nat, 8);
}

} // verus!
