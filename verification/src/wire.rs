//! The byte-level building blocks of the wire format: big-endian integers,
//! the initial byte, and the length header that follows a major type.

use vstd::prelude::*;

verus! {

/// Number of values that `n` bytes can hold: 256 to the power `n`.
pub open spec fn radix(n: nat) -> nat
    decreases n,
{
    if n == 0 {
        1
    } else {
        256 * radix((n - 1) as nat)
    }
}

/// The natural number that a big-endian byte string denotes.
pub open spec fn be_value(bytes: Seq<u8>) -> nat
    decreases bytes.len(),
{
    if bytes.len() == 0 {
        0
    } else {
        be_value(bytes.drop_last()) * 256 + bytes.last() as nat
    }
}

/// The big-endian representation of `n` in exactly `width` bytes
/// (the low `width` bytes when `n` does not fit).
pub open spec fn be_bytes(n: nat, width: nat) -> Seq<u8>
    decreases width,
{
    if width == 0 {
        Seq::empty()
    } else {
        be_bytes(n / 256, (width - 1) as nat).push((n % 256) as u8)
    }
}

/// Number of bytes in the shortest big-endian representation of `n`
/// (zero bytes for zero).
pub open spec fn be_width(n: nat) -> nat
    decreases n,
{
    if n == 0 {
        0
    } else {
        1 + be_width(n / 256)
    }
}

/// The shortest big-endian representation of `n`; empty for zero.
pub open spec fn be_minimal(n: nat) -> Seq<u8> {
    be_bytes(n, be_width(n))
}

pub proof fn lemma_radix_values()
    ensures
        radix(0) == 1,
        radix(1) == 0x100,
        radix(2) == 0x1_0000,
        radix(3) == 0x100_0000,
        radix(4) == 0x1_0000_0000,
        radix(8) == 0x1_0000_0000_0000_0000,
{
    reveal_with_fuel(radix, 9);
}

pub proof fn lemma_radix_positive(n: nat)
    ensures
        radix(n) > 0,
    decreases n,
{
    if n > 0 {
        lemma_radix_positive((n - 1) as nat);
    }
}

pub proof fn lemma_radix_monotone(a: nat, b: nat)
    requires
        a <= b,
    ensures
        radix(a) <= radix(b),
    decreases b,
{
    if a < b {
        lemma_radix_monotone(a, (b - 1) as nat);
        lemma_radix_positive((b - 1) as nat);
    }
}

pub proof fn lemma_be_bytes_len(n: nat, width: nat)
    ensures
        be_bytes(n, width).len() == width,
    decreases width,
{
    if width > 0 {
        lemma_be_bytes_len(n / 256, (width - 1) as nat);
    }
}

pub proof fn lemma_be_value_bound(bytes: Seq<u8>)
    ensures
        be_value(bytes) < radix(bytes.len()),
    decreases bytes.len(),
{
    if bytes.len() > 0 {
        lemma_be_value_bound(bytes.drop_last());
    }
}

/// Writing a number that fits and reading it back gives the number.
pub proof fn lemma_be_value_of_bytes(n: nat, width: nat)
    requires
        n < radix(width),
    ensures
        be_value(be_bytes(n, width)) == n,
    decreases width,
{
    if width > 0 {
        let rest = be_bytes(n / 256, (width - 1) as nat);
        lemma_be_value_of_bytes(n / 256, (width - 1) as nat);
        assert(be_bytes(n, width).drop_last() =~= rest);
    }
}

/// Reading a byte string and writing the number back in the same width
/// gives the byte string.
pub proof fn lemma_be_bytes_of_value(bytes: Seq<u8>)
    ensures
        be_bytes(be_value(bytes), bytes.len()) == bytes,
    decreases bytes.len(),
{
    if bytes.len() > 0 {
        let front = bytes.drop_last();
        lemma_be_bytes_of_value(front);
        let v = be_value(front) * 256 + bytes.last() as nat;
        assert(v / 256 == be_value(front));
        assert(v % 256 == bytes.last() as nat);
        assert(be_bytes(v, bytes.len()) =~= front.push(bytes.last()));
        assert(front.push(bytes.last()) =~= bytes);
    }
}

pub proof fn lemma_be_width_bound(n: nat)
    ensures
        n < radix(be_width(n)),
        be_width(n) > 0 ==> n >= radix((be_width(n) - 1) as nat),
    decreases n,
{
    if n > 0 {
        lemma_be_width_bound(n / 256);
        if n / 256 == 0 {
            reveal_with_fuel(be_width, 2);
            reveal_with_fuel(radix, 2);
        }
    }
}

/// A leading zero byte does not change the number denoted.
pub proof fn lemma_be_value_leading_zero(bytes: Seq<u8>)
    requires
        bytes.len() > 0,
        bytes[0] == 0,
    ensures
        be_value(bytes) == be_value(bytes.skip(1)),
    decreases bytes.len(),
{
    if bytes.len() == 1 {
        reveal_with_fuel(be_value, 2);
        assert(bytes.drop_last().len() == 0);
        assert(bytes.skip(1).len() == 0);
    } else {
        lemma_be_value_leading_zero(bytes.drop_last());
        assert(bytes.drop_last().skip(1) =~= bytes.skip(1).drop_last());
    }
}

/// The first byte of a minimal representation is not zero.
pub proof fn lemma_be_value_nonzero_lead(bytes: Seq<u8>)
    requires
        bytes.len() > 0,
        bytes[0] != 0,
    ensures
        be_value(bytes) >= radix((bytes.len() - 1) as nat),
        be_width(be_value(bytes)) == bytes.len(),
    decreases bytes.len(),
{
    if bytes.len() == 1 {
        reveal_with_fuel(be_value, 2);
        reveal_with_fuel(be_width, 2);
        assert(bytes.drop_last().len() == 0);
        assert(be_value(bytes) == bytes[0] as nat);
        assert(be_value(bytes) / 256 == 0);
    } else {
        let front = bytes.drop_last();
        lemma_be_value_nonzero_lead(front);
        let v = be_value(bytes);
        assert(v / 256 == be_value(front));
        lemma_radix_positive((front.len() - 1) as nat);
    }
}

/// Minimal bytes that are more than `n` long denote a number of at least
/// `radix(n)`.
pub proof fn lemma_be_value_nonzero_lead_from_minimal(bytes: Seq<u8>)
    requires
        bytes == be_minimal(be_value(bytes)),
        bytes.len() > 0,
    ensures
        be_value(bytes) >= radix((bytes.len() - 1) as nat),
{
    lemma_be_bytes_len(be_value(bytes), be_width(be_value(bytes)));
    lemma_be_width_bound(be_value(bytes));
}

/// The initial byte of an item: major type in the high three bits,
/// subtype in the low five.
pub open spec fn initial_byte(major: u8, subtype: u8) -> u8
    recommends
        major < 8,
        subtype < 32,
{
    (major * 32 + subtype) as u8
}

/// Major type and length argument in the shortest header that holds it.
pub open spec fn head(major: u8, arg: nat) -> Seq<u8>
    recommends
        major < 8,
        arg < radix(8),
{
    if arg < 24 {
        seq![initial_byte(major, arg as u8)]
    } else if arg < 0x100 {
        seq![initial_byte(major, 24)] + be_bytes(arg, 1)
    } else if arg < 0x1_0000 {
        seq![initial_byte(major, 25)] + be_bytes(arg, 2)
    } else if arg < 0x1_0000_0000 {
        seq![initial_byte(major, 26)] + be_bytes(arg, 4)
    } else {
        seq![initial_byte(major, 27)] + be_bytes(arg, 8)
    }
}

/// The header of an indefinite-length item.
pub open spec fn indefinite_head(major: u8) -> Seq<u8>
    recommends
        major < 8,
{
    seq![initial_byte(major, 31)]
}

/// Header for a length that may be absent (indefinite).
pub open spec fn length_head(major: u8, length: Option<u64>) -> Seq<u8> {
    match length {
        Some(n) => head(major, n as nat),
        None => indefinite_head(major),
    }
}

/// Number of bytes of the header that carries `arg`.
pub open spec fn head_len(arg: nat) -> nat {
    if arg < 24 {
        1
    } else if arg < 0x100 {
        2
    } else if arg < 0x1_0000 {
        3
    } else if arg < 0x1_0000_0000 {
        5
    } else {
        9
    }
}

/// The subtype that the header of `arg` carries in its initial byte.
pub open spec fn head_subtype(arg: nat) -> u8 {
    if arg < 24 {
        arg as u8
    } else if arg < 0x100 {
        24
    } else if arg < 0x1_0000 {
        25
    } else if arg < 0x1_0000_0000 {
        26
    } else {
        27
    }
}

/// A header grows to the next wider form exactly at 24, 256, 65536 and
/// 2^32: below each bound it has the shorter length, from the bound on the
/// longer one, and its initial byte names the width.
pub proof fn lemma_head_shape(major: u8, arg: nat)
    requires
        major < 8,
        arg < radix(8),
    ensures
        head(major, arg).len() == head_len(arg),
        head(major, arg)[0] == initial_byte(major, head_subtype(arg)),
        head(major, arg)[0] / 32 == major,
        head(major, arg)[0] % 32 == head_subtype(arg),
        arg >= 24 ==> be_value(head(major, arg).skip(1)) == arg,
{
    lemma_radix_values();
    lemma_be_bytes_len(arg, 1);
    lemma_be_bytes_len(arg, 2);
    lemma_be_bytes_len(arg, 4);
    lemma_be_bytes_len(arg, 8);
    if arg >= 24 {
        let w: nat = (head_len(arg) - 1) as nat;
        lemma_be_value_of_bytes(arg, w);
        assert(head(major, arg).skip(1) =~= be_bytes(arg, w));
    }
}

/// Splits an initial byte into major type and subtype.
pub fn split_initial_byte(byte: u8) -> (parts: (u8, u8))
    ensures
        parts.0 == byte / 32,
        parts.1 == byte % 32,
        parts.0 < 8,
        parts.1 < 32,
        initial_byte(parts.0, parts.1) == byte,
{
    (byte / 32, byte % 32)
}

/// Reads up to eight big-endian bytes as a number.
pub fn be_to_u64(bytes: &[u8]) -> (n: u64)
    requires
        bytes@.len() <= 8,
    ensures
        n as nat == be_value(bytes@),
{
    let mut n: u64 = 0;
    let mut i: usize = 0;
    while i < bytes.len()
        invariant
            i <= bytes@.len() <= 8,
            n as nat == be_value(bytes@.take(i as int)),
        decreases bytes@.len() - i,
    {
        proof {
            lemma_be_value_bound(bytes@.take(i as int));
            lemma_be_value_bound(bytes@.take(i + 1));
            assert(bytes@.take(i + 1).drop_last() =~= bytes@.take(i as int));
            lemma_radix_values();
            reveal_with_fuel(radix, 9);
        }
        n = n * 256 + bytes[i] as u64;
        i += 1;
    }
    assert(bytes@.take(i as int) =~= bytes@);
    n
}

/// Writes `n` as exactly `width` big-endian bytes.
pub fn u64_to_be(n: u64, width: usize) -> (bytes: Vec<u8>)
    requires
        width <= 8,
    ensures
        bytes@ == be_bytes(n as nat, width as nat),
{
    let mut bytes: Vec<u8> = Vec::new();
    let mut i: usize = 0;
    while i < width
        invariant
            i <= width <= 8,
            bytes@.len() == i,
            forall|k: int|
                0 <= k < i ==> bytes@[k] as nat == (n as nat / radix((width - 1 - k) as nat)) % 256,
        decreases width - i,
    {
        let shift: usize = width - 1 - i;
        let mut divisor: u64 = 1;
        let mut j: usize = 0;
        while j < shift
            invariant
                j <= shift < 8,
                divisor as nat == radix(j as nat),
            decreases shift - j,
        {
            proof {
                reveal_with_fuel(radix, 9);
                lemma_radix_values();
            }
            divisor = divisor * 256;
            j += 1;
        }
        proof {
            lemma_radix_positive(shift as nat);
        }
        bytes.push(((n / divisor) % 256) as u8);
        i += 1;
    }
    proof {
        lemma_be_bytes_index_all(n as nat, width as nat);
        lemma_be_bytes_len(n as nat, width as nat);
        assert(bytes@ =~= be_bytes(n as nat, width as nat));
    }
    bytes
}

/// Byte `k` of a big-endian representation is the digit of weight
/// `radix(width - 1 - k)`.
pub proof fn lemma_be_bytes_index(n: nat, width: nat, k: int)
    requires
        0 <= k < width,
    ensures
        be_bytes(n, width).len() == width,
        be_bytes(n, width)[k] as nat == (n / radix((width - 1 - k) as nat)) % 256,
    decreases width,
{
    lemma_be_bytes_len(n, width);
    lemma_be_bytes_len(n / 256, (width - 1) as nat);
    let front = be_bytes(n / 256, (width - 1) as nat);
    assert(be_bytes(n, width) == front.push((n % 256) as u8));
    if k == width - 1 {
        assert(radix(0) == 1);
        assert(be_bytes(n, width)[k] == (n % 256) as u8);
        assert(n / 1 == n);
        assert((width - 1 - k) as nat == 0);
    } else {
        lemma_be_bytes_index(n / 256, (width - 1) as nat, k);
        let e: nat = (width - 2 - k) as nat;
        lemma_radix_positive(e);
        assert(radix((width - 1 - k) as nat) == 256 * radix(e));
        lemma_div_twice(n, radix(e));
        assert(be_bytes(n, width)[k] == front[k]);
        assert(front[k] as nat == ((n / 256) / radix(e)) % 256);
        assert((n / 256) / radix(e) == n / (256 * radix(e)));
        assert(n / (256 * radix(e)) == n / radix((width - 1 - k) as nat));
    }
}

proof fn lemma_div_twice(n: nat, d: nat)
    requires
        d > 0,
    ensures
        (n / 256) / d == n / (256 * d),
{
    vstd::arithmetic::div_mod::lemma_div_denominator(n as int, 256, d as int);
}

proof fn lemma_be_bytes_index_all(n: nat, width: nat)
    ensures
        forall|k: int|
            0 <= k < width ==> #[trigger] be_bytes(n, width)[k] as nat == (n / radix(
                (width - 1 - k) as nat,
            )) % 256,
{
    assert forall|k: int| 0 <= k < width implies #[trigger] be_bytes(n, width)[k] as nat == (n
        / radix((width - 1 - k) as nat)) % 256 by {
        lemma_be_bytes_index(n, width, k);
    }
}

} // verus!
