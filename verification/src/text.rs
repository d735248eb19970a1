//! Character-level model shared by the normalizer and the parser: which
//! characters count as whitespace, which are trimmed from the ends of a
//! resource name, ASCII lowercasing, and decimal digits.

use vstd::prelude::*;

verus! {

/// Whitespace as the resource grammar understands it: the ASCII blanks and
/// the non-breaking space.
pub open spec fn is_space(c: char) -> bool {
    c == ' ' || c == '\t' || c == '\n' || c == '\r' || c == '\u{a0}'
}

/// Characters trimmed from both ends of a raw resource name: whitespace and
/// double quotes (ledger cells arrive quote-wrapped).
pub open spec fn is_mark(c: char) -> bool {
    is_space(c) || c == '"'
}

/// ASCII lowercasing of one character; everything outside `A`..`Z` is kept.
pub open spec fn lower_char(c: char) -> char {
    if 'A' <= c && c <= 'Z' {
        (((c as u8) + 32) as char)
    } else {
        c
    }
}

/// One canonicalization step on a character: a non-breaking space becomes an
/// ordinary space, letters are lowercased.
pub open spec fn canon_char(c: char) -> char {
    if c == '\u{a0}' {
        ' '
    } else {
        lower_char(c)
    }
}

/// A decimal digit.
pub open spec fn is_digit(c: char) -> bool {
    '0' <= c && c <= '9'
}

/// An ASCII letter.
pub open spec fn is_alpha(c: char) -> bool {
    ('a' <= c && c <= 'z') || ('A' <= c && c <= 'Z')
}

/// The numeric value of one decimal digit.
pub open spec fn digit_val(c: char) -> nat {
    (c as int - '0' as int) as nat
}

/// The value of a run of decimal digits, most significant first.
pub open spec fn digits_val(s: Seq<char>) -> nat
    decreases s.len(),
{
    if s.len() == 0 {
        0
    } else {
        digits_val(s.drop_last()) * 10 + digit_val(s.last())
    }
}

/// A digit run's value only grows as digits are appended.
pub proof fn lemma_digits_val_prefix_le(s: Seq<char>, k: int)
    requires
        0 <= k <= s.len(),
    ensures
        digits_val(s.take(k)) <= digits_val(s),
    decreases s.len(),
{
    if k < s.len() {
        assert(s.drop_last().take(k) =~= s.take(k));
        lemma_digits_val_prefix_le(s.drop_last(), k);
    } else {
        assert(s.take(k) =~= s);
    }
}

/// The character of one decimal digit value.
pub open spec fn digit_char_of(d: u64) -> char {
    ((48 + d) as u8) as char
}

/// The canonical decimal rendering of a number, most significant digit
/// first, no leading zero (zero itself is `0`).
pub open spec fn dec_digits(x: u64) -> Seq<char>
    decreases x,
{
    if x < 10 {
        seq![digit_char_of(x)]
    } else {
        dec_digits(x / 10).push(digit_char_of(x % 10))
    }
}

/// A digit value's character is a digit and reads back as the value.
pub proof fn lemma_digit_char_val(d: u64)
    requires
        d < 10,
    ensures
        is_digit(digit_char_of(d)),
        digit_val(digit_char_of(d)) == d,
{
    assert((48 + d) as u8 == 48 + d);
    assert((((48 + d) as u8) as char) as int == 48 + d);
}

/// The decimal rendering reads back as the number it renders: every
/// character is a digit and their value is the original.
pub proof fn lemma_dec_digits_val(x: u64)
    ensures
        dec_digits(x).len() > 0,
        forall|m: int| 0 <= m < dec_digits(x).len() ==> is_digit(#[trigger] dec_digits(x)[m]),
        digits_val(dec_digits(x)) == x,
    decreases x,
{
    lemma_digit_char_val(x % 10);
    if x < 10 {
        lemma_digit_char_val(x);
        assert(dec_digits(x) =~= seq![digit_char_of(x)]);
        assert(dec_digits(x).drop_last() =~= Seq::<char>::empty());
        assert(digits_val(dec_digits(x)) == digits_val(Seq::<char>::empty()) * 10 + digit_val(
            digit_char_of(x),
        ));
    } else {
        lemma_dec_digits_val(x / 10);
        assert(dec_digits(x).drop_last() =~= dec_digits(x / 10));
        assert forall|m: int| 0 <= m < dec_digits(x).len() implies is_digit(
            #[trigger] dec_digits(x)[m],
        ) by {
            if m < dec_digits(x).len() - 1 {
                assert(dec_digits(x)[m] == dec_digits(x / 10)[m]);
            }
        }
    }
}

/// Renders a number in decimal, as [`dec_digits`] describes.
#[verifier::rlimit(50)]
pub fn u64_to_string(x: u64) -> (r: String)
    ensures
        r@ == dec_digits(x),
{
    let mut rev: Vec<char> = Vec::new();
    let mut v: u64 = x;
    proof {
        assert(rev@.reverse() =~= Seq::<char>::empty());
    }
    loop
        invariant_except_break
            dec_digits(x) == dec_digits(v) + rev@.reverse(),
        ensures
            rev@.reverse() == dec_digits(x),
        decreases v,
    {
        let d = v % 10;
        let ghost rev0 = rev@;
        rev.push(((48 + d) as u8) as char);
        proof {
            assert(rev@ == rev0.push(digit_char_of(v % 10)));
            assert(rev@.reverse() =~= seq![digit_char_of(v % 10)] + rev0.reverse());
        }
        if v < 10 {
            proof {
                assert(dec_digits(v) =~= seq![digit_char_of(v)]);
                assert(dec_digits(v) + rev0.reverse() =~= seq![digit_char_of(v % 10)]
                    + rev0.reverse());
            }
            break;
        }
        let ghost v0 = v;
        v = v / 10;
        proof {
            assert(dec_digits(v0) == dec_digits(v).push(digit_char_of(d)));
            assert(dec_digits(v).push(digit_char_of(d)) + rev0.reverse() =~= dec_digits(v) + (
            seq![digit_char_of(d)] + rev0.reverse()));
        }
    }
    let n = rev.len();
    let mut out: Vec<char> = Vec::new();
    let mut j: usize = n;
    while j > 0
        invariant
            j <= n == rev@.len(),
            out@ =~= rev@.reverse().take(n - j),
        decreases j,
    {
        j = j - 1;
        out.push(rev[j]);
        proof {
            assert(rev@.reverse()[n - j - 1] == rev@[j as int]);
            assert(out@ =~= rev@.reverse().take(n - j));
        }
    }
    proof {
        assert(rev@.reverse().take(n as int) =~= rev@.reverse());
    }
    chars_to_string(&out)
}

/// Exec mirror of [`is_digit`].
pub fn digit_char(c: char) -> (r: bool)
    ensures
        r == is_digit(c),
{
    '0' <= c && c <= '9'
}

/// Exec mirror of [`is_alpha`].
pub fn alpha_char(c: char) -> (r: bool)
    ensures
        r == is_alpha(c),
{
    ('a' <= c && c <= 'z') || ('A' <= c && c <= 'Z')
}

/// Exec mirror of [`digit_val`].
pub fn digit_value(c: char) -> (r: u64)
    requires
        is_digit(c),
    ensures
        r == digit_val(c),
{
    ((c as u8) - ('0' as u8)) as u64
}

/// Exec mirror of [`is_space`].
pub fn space_char(c: char) -> (r: bool)
    ensures
        r == is_space(c),
{
    c == ' ' || c == '\t' || c == '\n' || c == '\r' || c == '\u{a0}'
}

/// Exec mirror of [`is_mark`].
pub fn mark_char(c: char) -> (r: bool)
    ensures
        r == is_mark(c),
{
    space_char(c) || c == '"'
}

/// Exec mirror of [`lower_char`].
pub fn lowercase_char(c: char) -> (r: char)
    ensures
        r == lower_char(c),
{
    if 'A' <= c && c <= 'Z' {
        ((c as u8) + 32) as char
    } else {
        c
    }
}

/// Exec mirror of [`canon_char`].
pub fn canonicalize_char(c: char) -> (r: char)
    ensures
        r == canon_char(c),
{
    if c == '\u{a0}' {
        ' '
    } else if 'A' <= c && c <= 'Z' {
        ((c as u8) + 32) as char
    } else {
        c
    }
}

/// Canonicalization is idempotent and never yields a non-breaking space.
pub proof fn lemma_canon_char_idempotent(c: char)
    ensures
        canon_char(c) != '\u{a0}',
        canon_char(canon_char(c)) == canon_char(c),
{
}

/// Canonicalization maps trimmed characters to trimmed characters and kept
/// characters to kept characters.
pub proof fn lemma_canon_char_preserves_mark(c: char)
    ensures
        is_mark(canon_char(c)) == is_mark(c),
{
}

/// The characters of `s` as a vector, for in-place scanning.
pub fn chars_of(s: &str) -> (v: Vec<char>)
    ensures
        v@ == s@,
{
    let n = s.unicode_len();
    let mut v: Vec<char> = Vec::new();
    let mut i: usize = 0;
    while i < n
        invariant
            i <= n,
            n == s@.len(),
            v@ == s@.take(i as int),
        decreases n - i,
    {
        v.push(s.get_char(i));
        i = i + 1;
        proof {
            assert(v@ =~= s@.take(i as int));
        }
    }
    proof {
        assert(v@ =~= s@);
    }
    v
}

/// Builds a `String` from a vector of characters.
///
/// Relies on `core::iter::Iterator::collect` into `String`, which
/// concatenates exactly the characters the iterator yields.
#[verifier::external_body]
pub fn chars_to_string(v: &Vec<char>) -> (s: String)
    ensures
        s@ == v@,
{
    v.iter().collect()
}

} // verus!
