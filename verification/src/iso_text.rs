//! Date and time text for parsers that know neither the suffix `Z` nor a
//! fraction of a second with fewer than six digits.

use vstd::prelude::*;
use vstd::string::StrSliceExecFns;
use vstd::string::StringExecFns;

verus! {

/// Whether the character is one of the digits `0` to `9`.
pub open spec fn is_digit(c: char) -> bool {
    48 <= c as u32 <= 57
}

/// The index of the first `c` at or behind `from`; the length of the text
/// where there is none.
pub open spec fn position_of(text: Seq<char>, c: char, from: nat) -> nat
    decreases text.len() - from,
{
    if from >= text.len() {
        text.len()
    } else if text[from as int] == c {
        from
    } else {
        position_of(text, c, from + 1)
    }
}

/// The index behind the digits that begin at `from`.
pub open spec fn digits_end(text: Seq<char>, from: nat) -> nat
    decreases text.len() - from,
{
    if from >= text.len() {
        text.len()
    } else if is_digit(text[from as int]) {
        digits_end(text, from + 1)
    } else {
        from
    }
}

/// `n` zeros.
pub open spec fn zeros(n: nat) -> Seq<char> {
    Seq::new(n, |i: int| '0')
}

/// The text with its first `Z` turned into `+00:00`.
pub open spec fn with_offset(text: Seq<char>) -> Seq<char> {
    let z = position_of(text, 'Z', 0);
    if z < text.len() {
        text.take(z as int) + "+00:00"@ + text.skip(z as int + 1)
    } else {
        text
    }
}

/// The text with the digits behind its first point brought to six: more
/// are cut off, fewer are filled up with zeros. A text without a point, or
/// with nothing behind the digits, stays as it is.
pub open spec fn with_microseconds(text: Seq<char>) -> Seq<char> {
    let point = position_of(text, '.', 0);
    if point >= text.len() {
        text
    } else {
        let end = digits_end(text, point + 1);
        if end >= text.len() {
            text
        } else {
            let digits = end - (point + 1);
            let kept = if digits >= 6 {
                6
            } else {
                digits
            };
            text.take(point as int + 1 + kept) + zeros((6 - kept) as nat) + text.skip(end as int)
        }
    }
}

/// Date and time text as an older parser takes it: the first `Z` is
/// written as `+00:00`, and the fraction of the second has six digits.
pub open spec fn legacy_iso(text: Seq<char>) -> Seq<char> {
    with_microseconds(with_offset(text))
}

/// Finds the first `c` at or behind `from`.
pub fn find_char(text: &str, c: char, from: usize) -> (k: usize)
    ensures
        k == position_of(text@, c, from as nat),
        k <= text@.len(),
        from <= text@.len() ==> from <= k,
{
    let count = text.unicode_len();
    if from >= count {
        return count;
    }
    let mut i: usize = from;
    while i < count && text.get_char(i) != c
        invariant
            from <= i <= count,
            count == text@.len(),
            position_of(text@, c, i as nat) == position_of(text@, c, from as nat),
        decreases count - i,
    {
        i += 1;
    }
    i
}

/// Finds the end of the digits that begin at `from`.
pub fn find_digits_end(text: &str, from: usize) -> (k: usize)
    ensures
        k == digits_end(text@, from as nat),
        k <= text@.len(),
        from <= text@.len() ==> from <= k,
{
    let count = text.unicode_len();
    if from >= count {
        return count;
    }
    let mut i: usize = from;
    while i < count && 48 <= text.get_char(i) as u32 && text.get_char(i) as u32 <= 57
        invariant
            from <= i <= count,
            count == text@.len(),
            digits_end(text@, i as nat) == digits_end(text@, from as nat),
        decreases count - i,
    {
        i += 1;
    }
    i
}

/// Turns the first `Z` into `+00:00`.
pub fn offset_text(text: &str) -> (out: String)
    ensures
        out@ == with_offset(text@),
{
    let count = text.unicode_len();
    let z = find_char(text, 'Z', 0);
    if z < count {
        let mut out = String::from_str(text.substring_char(0, z));
        out.append("+00:00");
        out.append(text.substring_char(z + 1, count));
        proof {
            assert(text@.subrange(0, z as int) =~= text@.take(z as int));
            assert(text@.subrange(z + 1, count as int) =~= text@.skip(z + 1));
        }
        out
    } else {
        String::from_str(text)
    }
}

/// Brings the digits behind the first point to six.
pub fn microseconds_text(text: &str) -> (out: String)
    ensures
        out@ == with_microseconds(text@),
{
    let count = text.unicode_len();
    let point = find_char(text, '.', 0);
    if point >= count {
        return String::from_str(text);
    }
    let end = find_digits_end(text, point + 1);
    if end >= count {
        return String::from_str(text);
    }
    let digits = end - (point + 1);
    let kept: usize = if digits >= 6 {
        6
    } else {
        digits
    };
    let mut out = String::from_str(text.substring_char(0, point + 1 + kept));
    let ghost front = out@;
    let mut filled: usize = kept;
    proof {
        reveal_strlit("0");
        assert(front + zeros(0) =~= front);
    }
    while filled < 6
        invariant
            kept <= filled <= 6,
            out@ == front + zeros((filled - kept) as nat),
            "0"@ =~= seq!['0'],
        decreases 6 - filled,
    {
        out.append("0");
        proof {
            assert(zeros((filled - kept) as nat) + seq!['0'] =~= zeros((filled + 1 - kept) as nat));
            assert(front + zeros((filled - kept) as nat) + seq!['0'] =~= front + (zeros(
                (filled - kept) as nat,
            ) + seq!['0']));
        }
        filled += 1;
    }
    out.append(text.substring_char(end, count));
    proof {
        assert(text@.subrange(0, point + 1 + kept) =~= text@.take(point + 1 + kept));
        assert(text@.subrange(end as int, count as int) =~= text@.skip(end as int));
    }
    out
}

/// Date and time text as an older parser takes it.
pub fn legacy_iso_text(text: &str) -> (out: String)
    ensures
        out@ == legacy_iso(text@),
{
    let first = offset_text(text);
    microseconds_text(first.as_str())
}

} // verus!
