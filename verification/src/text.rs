//! Plain-text helpers: whitespace trimming, blankness, decimal rendering of
//! identifiers, and string equality, each against an exact specification.

use vstd::prelude::*;
use vstd::string::StrSliceExecFns;
use vstd::string::StringSliceAdditionalSpecFns;

verus! {

/// One whitespace character: the Unicode White_Space set, as `str::trim`
/// understands it.
pub open spec fn is_space(c: char) -> bool {
    c == ' ' || c == '\t' || c == '\n' || c == '\r' || c == '\u{b}' || c == '\u{c}' || c
        == '\u{85}' || c == '\u{a0}' || c == '\u{1680}' || ('\u{2000}' <= c && c <= '\u{200a}')
        || c == '\u{2028}' || c == '\u{2029}' || c == '\u{202f}' || c == '\u{205f}' || c
        == '\u{3000}'
}

/// `s` without its leading whitespace.
pub open spec fn drop_leading(s: Seq<char>) -> Seq<char>
    decreases s.len(),
{
    if s.len() > 0 && is_space(s[0]) {
        drop_leading(s.drop_first())
    } else {
        s
    }
}

/// `s` without its trailing whitespace.
pub open spec fn drop_trailing(s: Seq<char>) -> Seq<char>
    decreases s.len(),
{
    if s.len() > 0 && is_space(s.last()) {
        drop_trailing(s.drop_last())
    } else {
        s
    }
}

/// `s` without leading and trailing whitespace.
pub open spec fn trimmed(s: Seq<char>) -> Seq<char> {
    drop_trailing(drop_leading(s))
}

/// A text is blank when trimming leaves nothing of it.
pub open spec fn is_blank(s: Seq<char>) -> bool {
    trimmed(s).len() == 0
}

fn is_space_char(c: char) -> (r: bool)
    ensures
        r == is_space(c),
{
    c == ' ' || c == '\t' || c == '\n' || c == '\r' || c == '\u{b}' || c == '\u{c}' || c
        == '\u{85}' || c == '\u{a0}' || c == '\u{1680}' || ('\u{2000}' <= c && c <= '\u{200a}')
        || c == '\u{2028}' || c == '\u{2029}' || c == '\u{202f}' || c == '\u{205f}' || c
        == '\u{3000}'
}

/// A copy of `s` with leading and trailing whitespace removed.
pub fn trim_text(s: &str) -> (r: String)
    ensures
        r@ == trimmed(s@),
{
    let len: usize = s.unicode_len();
    let mut lo: usize = 0;
    proof {
        assert(s@.skip(0) =~= s@);
    }
    while lo < len && is_space_char(s.get_char(lo))
        invariant
            0 <= lo <= len,
            len == s@.len(),
            drop_leading(s@) == drop_leading(s@.skip(lo as int)),
        decreases len - lo,
    {
        proof {
            assert(s@.skip(lo as int).drop_first() =~= s@.skip(lo as int + 1));
        }
        lo = lo + 1;
    }
    proof {
        if lo < len {
            assert(drop_leading(s@.skip(lo as int)) == s@.skip(lo as int));
        } else {
            assert(s@.skip(lo as int) =~= Seq::<char>::empty());
        }
        assert(drop_leading(s@) == s@.subrange(lo as int, len as int)) by {
            assert(s@.skip(lo as int) =~= s@.subrange(lo as int, len as int));
        }
    }
    let mut hi: usize = len;
    while hi > lo && is_space_char(s.get_char(hi - 1))
        invariant
            lo <= hi <= len,
            len == s@.len(),
            drop_leading(s@) == s@.subrange(lo as int, len as int),
            drop_trailing(s@.subrange(lo as int, len as int)) == drop_trailing(
                s@.subrange(lo as int, hi as int),
            ),
        decreases hi,
    {
        proof {
            assert(s@.subrange(lo as int, hi as int).drop_last() =~= s@.subrange(
                lo as int,
                hi as int - 1,
            ));
        }
        hi = hi - 1;
    }
    proof {
        if hi > lo {
            assert(drop_trailing(s@.subrange(lo as int, hi as int)) == s@.subrange(
                lo as int,
                hi as int,
            ));
        } else {
            assert(s@.subrange(lo as int, hi as int) =~= Seq::<char>::empty());
        }
    }
    let piece = s.substring_char(lo, hi);
    piece.to_owned()
}

/// Whether `s` is empty or consists of whitespace alone.
pub fn text_is_blank(s: &str) -> (r: bool)
    ensures
        r == is_blank(s@),
{
    let t = trim_text(s);
    t.as_str().is_empty()
}

/// The ASCII digit for `d`, meaningful for 0 ≤ d ≤ 9.
pub open spec fn digit_byte(d: nat) -> u8 {
    (48 + d) as u8
}

/// The decimal digits of `n`, most significant first, as ASCII bytes.
pub open spec fn dec_bytes(n: nat) -> Seq<u8>
    decreases n,
{
    if n < 10 {
        seq![digit_byte(n)]
    } else {
        dec_bytes(n / 10).push(digit_byte(n % 10))
    }
}

/// The decimal digits of `n` as characters.
pub open spec fn dec_chars(n: nat) -> Seq<char> {
    dec_bytes(n).map_values(|b: u8| b as char)
}

/// Every byte of a decimal rendering is an ASCII digit, and a number of two
/// or more digits renders longer than a one-digit number.
pub proof fn lemma_dec_bytes_shape(n: nat)
    ensures
        dec_bytes(n).len() >= 1,
        forall|i: int|
            0 <= i < dec_bytes(n).len() ==> 48 <= #[trigger] dec_bytes(n)[i] <= 57,
        n >= 10 ==> dec_bytes(n).len() >= 2,
    decreases n,
{
    if n >= 10 {
        lemma_dec_bytes_shape(n / 10);
    }
}

/// Distinct numbers have distinct decimal renderings.
pub proof fn lemma_dec_bytes_injective(a: nat, b: nat)
    requires
        dec_bytes(a) == dec_bytes(b),
    ensures
        a == b,
    decreases a,
{
    lemma_dec_bytes_shape(a);
    lemma_dec_bytes_shape(b);
    if a < 10 && b < 10 {
        assert(dec_bytes(a)[0] == digit_byte(a));
        assert(dec_bytes(b)[0] == digit_byte(b));
    } else if a >= 10 && b >= 10 {
        assert(dec_bytes(a).last() == digit_byte(a % 10));
        assert(dec_bytes(b).last() == digit_byte(b % 10));
        assert(dec_bytes(a).drop_last() =~= dec_bytes(a / 10));
        assert(dec_bytes(b).drop_last() =~= dec_bytes(b / 10));
        lemma_dec_bytes_injective(a / 10, b / 10);
        assert(a == (a / 10) * 10 + a % 10);
        assert(b == (b / 10) * 10 + b % 10);
    } else if a < 10 {
        assert(dec_bytes(a).len() == 1);
        assert(dec_bytes(b).len() >= 2);
    } else {
        assert(dec_bytes(b).len() == 1);
        assert(dec_bytes(a).len() >= 2);
    }
}

/// The decimal digits of `n`, most significant first, as ASCII bytes.
pub fn u64_dec_digits(n: u64) -> (r: Vec<u8>)
    ensures
        r@ == dec_bytes(n as nat),
{
    let mut out: Vec<u8> = Vec::new();
    let mut m: u64 = n;
    while m >= 10
        invariant
            dec_bytes(n as nat) =~= dec_bytes(m as nat) + out@,
        decreases m,
    {
        let d: u8 = ((m % 10) + 48) as u8;
        proof {
            assert(d == digit_byte((m % 10) as nat));
            assert(dec_bytes(m as nat) =~= dec_bytes((m / 10) as nat) + seq![d]);
        }
        out.insert(0, d);
        m = m / 10;
    }
    let d: u8 = (m + 48) as u8;
    proof {
        assert(d == digit_byte(m as nat));
        assert(dec_bytes(m as nat) =~= seq![d]);
    }
    out.insert(0, d);
    proof {
        assert(out@ =~= dec_bytes(n as nat));
    }
    out
}

/// Relies on `String::push`: appends one character at the end of the string.
#[verifier::external_body]
pub fn push_char(s: &mut String, c: char)
    ensures
        final(s)@ == old(s)@ + seq![c],
{
    s.push(c);
}

/// The decimal rendering of `n`.
pub fn u64_to_string(n: u64) -> (r: String)
    ensures
        r@ == dec_chars(n as nat),
{
    let digits = u64_dec_digits(n);
    let mut out = String::new();
    let mut i: usize = 0;
    while i < digits.len()
        invariant
            i <= digits@.len(),
            digits@ == dec_bytes(n as nat),
            out@ =~= digits@.take(i as int).map_values(|b: u8| b as char),
        decreases digits@.len() - i,
    {
        let c: char = digits[i] as char;
        push_char(&mut out, c);
        proof {
            assert(digits@.take(i as int + 1).map_values(|b: u8| b as char) =~= digits@.take(
                i as int,
            ).map_values(|b: u8| b as char) + seq![digits@[i as int] as char]);
        }
        i = i + 1;
    }
    proof {
        assert(digits@.take(digits@.len() as int) =~= digits@);
    }
    out
}

/// Whether two strings hold the same characters.
pub fn str_eq(a: &str, b: &str) -> (r: bool)
    ensures
        r == (a@ == b@),
{
    let ab = a.as_bytes();
    let bb = b.as_bytes();
    if ab.len() != bb.len() {
        proof {
            lemma_str_bytes_decide(a, b);
        }
        return false;
    }
    let n: usize = ab.len();
    let mut i: usize = 0;
    while i < n
        invariant
            i <= n,
            n == ab@.len() == bb@.len(),
            ab@ == a.spec_bytes(),
            bb@ == b.spec_bytes(),
            forall|j: int| 0 <= j < i ==> ab@[j] == bb@[j],
        decreases n - i,
    {
        if *vstd::slice::slice_index_get(ab, i) != *vstd::slice::slice_index_get(bb, i) {
            proof {
                lemma_str_bytes_decide(a, b);
            }
            return false;
        }
        i = i + 1;
    }
    proof {
        assert(ab@ =~= bb@);
        lemma_str_bytes_decide(a, b);
    }
    true
}

/// Two strings are equal exactly when their UTF-8 bytes are.
proof fn lemma_str_bytes_decide(a: &str, b: &str)
    ensures
        (a.spec_bytes() == b.spec_bytes()) == (a@ == b@),
{
    if a.spec_bytes() == b.spec_bytes() {
        vstd::utf8::encode_utf8_decode_utf8(a@);
        vstd::utf8::encode_utf8_decode_utf8(b@);
    }
}

} // verus!
