//! Text strings: UTF-8 decoding under the three error policies.

use vstd::prelude::*;
use vstd::slice::slice_subrange;
use vstd::slice::slice_to_vec;
use vstd::string::StringExecFns;
use vstd::utf8::decode_utf8;
use vstd::utf8::valid_utf8;

verus! {

/// What to do with bytes that are not UTF-8.
#[derive(Clone, Copy, PartialEq, Eq, Structural, Debug)]
pub enum StrErrors {
    /// Fail.
    Strict,
    /// Leave the invalid bytes out.
    Ignore,
    /// Put U+FFFD in place of each invalid sequence.
    Replace,
}

impl StrErrors {
    /// The policy of a name: `strict`, `ignore` or `replace`.
    pub open spec fn named(name: Seq<char>) -> Option<StrErrors> {
        if name == "strict"@ {
            Some(StrErrors::Strict)
        } else if name == "ignore"@ {
            Some(StrErrors::Ignore)
        } else if name == "replace"@ {
            Some(StrErrors::Replace)
        } else {
            None
        }
    }

    /// The policy of a name; none for any other name than the three.
    pub fn parse(name: &str) -> (r: Option<StrErrors>)
        ensures
            r == Self::named(name@),
    {
        let given = String::from_str(name);
        if given == String::from_str("strict") {
            Some(StrErrors::Strict)
        } else if given == String::from_str("ignore") {
            Some(StrErrors::Ignore)
        } else if given == String::from_str("replace") {
            Some(StrErrors::Replace)
        } else {
            None
        }
    }
}

/// `v` is the length of the longest prefix of `bytes` that is valid UTF-8.
pub open spec fn is_valid_up_to(bytes: Seq<u8>, v: nat) -> bool {
    &&& v <= bytes.len()
    &&& valid_utf8(bytes.take(v as int))
    &&& forall|j: int| v < j <= bytes.len() ==> !valid_utf8(#[trigger] bytes.take(j))
}

/// The length of the longest prefix of `bytes` that is valid UTF-8.
pub open spec fn valid_up_to(bytes: Seq<u8>) -> nat {
    choose|v: nat| is_valid_up_to(bytes, v)
}

/// For bytes that are not valid UTF-8: the length of the invalid sequence
/// that follows the longest valid prefix, as `Utf8Error::error_len` reports
/// it; `None` where the input ends inside a character, and for valid bytes.
pub uninterp spec fn invalid_sequence_len(bytes: Seq<u8>) -> Option<usize>;

pub proof fn lemma_valid_up_to_unique(bytes: Seq<u8>, v: nat)
    requires
        is_valid_up_to(bytes, v),
    ensures
        valid_up_to(bytes) == v,
        v == bytes.len() <==> valid_utf8(bytes),
{
    let w = valid_up_to(bytes);
    assert(is_valid_up_to(bytes, w));
    if v < w {
        assert(!valid_utf8(bytes.take(w as int)));
    }
    if w < v {
        assert(!valid_utf8(bytes.take(v as int)));
    }
    assert(bytes.take(bytes.len() as int) =~= bytes);
}

/// The text that lenient decoding makes of `bytes`: each longest valid
/// stretch decoded, and each invalid sequence between two of them left out
/// or, if `replace` is set, turned into U+FFFD.
pub open spec fn lenient_text(bytes: Seq<u8>, replace: bool) -> Seq<char>
    decreases bytes.len(),
{
    let v = valid_up_to(bytes);
    if v >= bytes.len() {
        decode_utf8(bytes)
    } else {
        let good = decode_utf8(bytes.take(v as int));
        let mark = if replace {
            seq!['\u{FFFD}']
        } else {
            Seq::<char>::empty()
        };
        match invalid_sequence_len(bytes) {
            Some(n) => if 0 < n && v + n <= bytes.len() {
                good + mark + lenient_text(bytes.skip(v + n), replace)
            } else {
                good + mark
            },
            None => good + mark,
        }
    }
}

/// The text that `bytes` decode to under a policy; `None` where the strict
/// policy meets invalid bytes.
pub open spec fn text_of(bytes: Seq<u8>, policy: StrErrors) -> Option<Seq<char>> {
    match policy {
        StrErrors::Strict => if valid_utf8(bytes) {
            Some(decode_utf8(bytes))
        } else {
            None
        },
        StrErrors::Ignore => Some(lenient_text(bytes, false)),
        StrErrors::Replace => Some(lenient_text(bytes, true)),
    }
}

/// `String::from_utf8`: succeeds exactly on valid UTF-8, and the string
/// then holds the characters that the bytes encode.
#[verifier::external_body]
fn string_from_utf8(bytes: Vec<u8>) -> (r: Option<String>)
    ensures
        r is Some <==> valid_utf8(bytes@),
        r matches Some(s) ==> s@ == decode_utf8(bytes@),
{
    String::from_utf8(bytes).ok()
}

/// `std::str::from_utf8` with what its error tells: the length of the
/// longest valid prefix (`Utf8Error::valid_up_to`; the whole length for valid
/// input) and the length of the invalid sequence behind it
/// (`Utf8Error::error_len`), which is between 1 and 3 and lies inside the
/// input.
#[verifier::external_body]
fn scan_utf8(bytes: &[u8]) -> (r: (usize, Option<usize>))
    ensures
        is_valid_up_to(bytes@, r.0 as nat),
        r.1 == invalid_sequence_len(bytes@),
        r.1 matches Some(n) ==> r.0 < bytes@.len() && 1 <= n <= 3 && r.0 + n <= bytes@.len(),
{
    match std::str::from_utf8(bytes) {
        Ok(_) => (bytes.len(), None),
        Err(e) => (e.valid_up_to(), e.error_len()),
    }
}

/// What one scan of `bytes` adds to the text, and where the next scan
/// begins if there is one. `valid` is the length of the valid prefix that
/// the scan found and `bad` the length of the invalid sequence behind it.
///
/// The valid prefix is decoded. Where bytes are left behind it, the mark
/// for an invalid sequence follows if `replace` is set, and the next scan
/// begins behind the invalid sequence; there is none where the input ends
/// inside a character.
pub open spec fn lenient_step(bytes: Seq<u8>, replace: bool, valid: nat, bad: Option<usize>) -> (
    Seq<char>,
    Option<nat>,
) {
    if valid >= bytes.len() {
        (
            if valid_utf8(bytes) {
                decode_utf8(bytes)
            } else {
                Seq::empty()
            },
            None,
        )
    } else {
        let front = bytes.take(valid as int);
        let good = if valid_utf8(front) {
            decode_utf8(front)
        } else {
            Seq::empty()
        };
        let mark = if replace {
            seq!['\u{FFFD}']
        } else {
            Seq::<char>::empty()
        };
        match bad {
            Some(n) => if 0 < n && valid + n <= bytes.len() {
                (good + mark, Some((valid + n) as nat))
            } else {
                (good + mark, None)
            },
            None => (good + mark, None),
        }
    }
}

/// Adds to `out` what one scan of `bytes` gives, and returns where the
/// next scan begins, if there is one.
pub fn lenient_piece(
    bytes: &[u8],
    replace: bool,
    valid: usize,
    bad: Option<usize>,
    out: &mut String,
) -> (next: Option<usize>)
    ensures
        final(out)@ == old(out)@ + lenient_step(bytes@, replace, valid as nat, bad).0,
        match next {
            Some(k) => lenient_step(bytes@, replace, valid as nat, bad).1 == Some(k as nat),
            None => lenient_step(bytes@, replace, valid as nat, bad).1 is None,
        },
{
    let whole = valid >= bytes.len();
    let end = if whole {
        bytes.len()
    } else {
        valid
    };
    let front = slice_to_vec(slice_subrange(bytes, 0, end));
    proof {
        assert(front@ =~= bytes@.take(end as int));
        if whole {
            assert(bytes@.take(end as int) =~= bytes@);
        }
    }
    match string_from_utf8(front) {
        Some(good) => {
            out.append(good.as_str());
        },
        None => {
            assert(old(out)@ + Seq::<char>::empty() =~= old(out)@);
        },
    }
    if whole {
        return None;
    }
    let ghost with_good = out@;
    if replace {
        proof {
            reveal_strlit("\u{FFFD}");
        }
        out.append("\u{FFFD}");
        assert("\u{FFFD}"@ =~= seq!['\u{FFFD}']);
    }
    proof {
        let good = lenient_step(bytes@, false, valid as nat, None).0;
        assert(good + Seq::<char>::empty() =~= good);
        assert(with_good =~= old(out)@ + good);
        if replace {
            assert(out@ =~= old(out)@ + (good + seq!['\u{FFFD}']));
        } else {
            assert(out@ =~= old(out)@ + (good + Seq::<char>::empty()));
        }
    }
    match bad {
        Some(n) => {
            if 0 < n && n <= bytes.len() - valid {
                Some(valid + n)
            } else {
                None
            }
        },
        None => None,
    }
}

/// Decodes bytes without failing: invalid sequences are left out or
/// replaced. The bytes are scanned for their longest valid prefix, the
/// piece that the scan gives is added, and the scan begins again behind the
/// invalid sequence.
pub fn decode_lenient(bytes: &[u8], replace: bool) -> (out: String)
    ensures
        out@ == lenient_text(bytes@, replace),
{
    let mut out = String::new();
    let mut pos: usize = 0;
    let mut done = false;
    proof {
        assert(bytes@.skip(0) =~= bytes@);
        assert(out@ + lenient_text(bytes@, replace) =~= lenient_text(bytes@, replace));
    }
    while !done
        invariant
            pos <= bytes@.len(),
            !done ==> out@ + lenient_text(bytes@.skip(pos as int), replace) == lenient_text(
                bytes@,
                replace,
            ),
            done ==> out@ == lenient_text(bytes@, replace),
        decreases bytes@.len() - pos + (if done { 0int } else { 1int }),
    {
        let rest = slice_subrange(bytes, pos, bytes.len());
        assert(rest@ =~= bytes@.skip(pos as int));
        let (v, bad) = scan_utf8(rest);
        let ghost before = out@;
        proof {
            lemma_valid_up_to_unique(rest@, v as nat);
            lemma_lenient_text(rest@, replace);
        }
        match lenient_piece(rest, replace, v, bad, &mut out) {
            Some(k) => {
                proof {
                    let piece = lenient_step(rest@, replace, v as nat, bad).0;
                    assert(bytes@.skip(pos as int).skip(k as int) =~= bytes@.skip(pos + k));
                    assert(before + piece + lenient_text(rest@.skip(k as int), replace) =~= before
                        + (piece + lenient_text(rest@.skip(k as int), replace)));
                }
                pos = pos + k;
            },
            None => {
                done = true;
            },
        }
    }
    out
}

/// Lenient decoding, scan by scan: the text of the bytes is the piece of
/// the first scan, then the text of what lies behind the invalid sequence.
pub proof fn lemma_lenient_text(bytes: Seq<u8>, replace: bool)
    requires
        is_valid_up_to(bytes, valid_up_to(bytes)),
    ensures
        lenient_text(bytes, replace) == ({
            let step = lenient_step(
                bytes,
                replace,
                valid_up_to(bytes),
                invalid_sequence_len(bytes),
            );
            match step.1 {
                Some(k) => step.0 + lenient_text(bytes.skip(k as int), replace),
                None => step.0,
            }
        }),
{
    let v = valid_up_to(bytes);
    if v >= bytes.len() {
        assert(bytes.take(v as int) =~= bytes);
    }
}

/// Decodes bytes to text under a policy.
pub fn decode_text(bytes: Vec<u8>, policy: StrErrors) -> (r: Option<String>)
    ensures
        match r {
            Some(s) => text_of(bytes@, policy) == Some(s@),
            None => text_of(bytes@, policy) is None,
        },
{
    match policy {
        StrErrors::Strict => string_from_utf8(bytes),
        StrErrors::Ignore => Some(decode_lenient(bytes.as_slice(), false)),
        StrErrors::Replace => Some(decode_lenient(bytes.as_slice(), true)),
    }
}

} // verus!
