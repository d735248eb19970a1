//! The free-text resource-list grammar. A pasted block is first sanitized
//! (thousands-separator commas, the `" x "` separator, hyphens, bullets and
//! colons are removed), then scanned for `quantity, name` fragments: a run of
//! digits, at least one whitespace character, then one or more alphabetic
//! words. Each fragment yields one `(amount, name)` pair, in input order.
//! A fragment whose quantity does not fit an unsigned 64-bit integer makes
//! the whole parse fail. Finally the water-to-corpse unit conversion is
//! applied.

use vstd::prelude::*;
use crate::errors::RequestError;
use crate::text::{
    is_space, is_alpha, is_digit, digits_val, space_char, alpha_char, digit_char, digit_value,
    lowercase_char, chars_of, chars_to_string, lemma_digits_val_prefix_le,
};
use crate::normalize::lower_all;

verus! {

/// How many units of water convert into one corpse.
pub const WATER_PER_CORPSE: u64 = 45000;

/// A character removed outright by sanitization: hyphens, bullets, colons.
pub open spec fn is_stripped_sym(c: char) -> bool {
    c == '-' || c == '\u{2022}' || c == ':'
}

/// `s` with every comma removed.
pub open spec fn strip_commas(s: Seq<char>) -> Seq<char>
    decreases s.len(),
{
    if s.len() == 0 {
        Seq::empty()
    } else if s.last() == ',' {
        strip_commas(s.drop_last())
    } else {
        strip_commas(s.drop_last()).push(s.last())
    }
}

/// `s` with every hyphen, bullet and colon removed.
pub open spec fn strip_syms(s: Seq<char>) -> Seq<char>
    decreases s.len(),
{
    if s.len() == 0 {
        Seq::empty()
    } else if is_stripped_sym(s.last()) {
        strip_syms(s.drop_last())
    } else {
        strip_syms(s.drop_last()).push(s.last())
    }
}

/// `s` with every occurrence of the separator `" x "` replaced by a single
/// space, scanning left to right without overlap.
pub open spec fn replace_x_sep(s: Seq<char>) -> Seq<char>
    decreases s.len(),
{
    if s.len() == 0 {
        Seq::empty()
    } else if s.len() >= 3 && s[0] == ' ' && s[1] == 'x' && s[2] == ' ' {
        seq![' '] + replace_x_sep(s.skip(3))
    } else {
        seq![s[0]] + replace_x_sep(s.drop_first())
    }
}

/// The sanitized form of a raw resource list: commas out, `" x "` separators
/// collapsed to a space, then hyphens, bullets and colons out.
pub open spec fn sanitize_spec(s: Seq<char>) -> Seq<char> {
    strip_syms(replace_x_sep(strip_commas(s)))
}

/// A character that may stand in a resource name fragment: a letter or
/// whitespace.
pub open spec fn is_name_char(c: char) -> bool {
    is_alpha(c) || is_space(c)
}

/// Length of the maximal digit run at the head of `s`.
pub open spec fn count_digits(s: Seq<char>) -> nat
    decreases s.len(),
{
    if s.len() > 0 && is_digit(s[0]) {
        1 + count_digits(s.drop_first())
    } else {
        0
    }
}

/// Length of the maximal whitespace run at the head of `s`.
pub open spec fn count_spaces(s: Seq<char>) -> nat
    decreases s.len(),
{
    if s.len() > 0 && is_space(s[0]) {
        1 + count_spaces(s.drop_first())
    } else {
        0
    }
}

/// Length of the maximal name-character run at the head of `s`.
pub open spec fn count_name_chars(s: Seq<char>) -> nat
    decreases s.len(),
{
    if s.len() > 0 && is_name_char(s[0]) {
        1 + count_name_chars(s.drop_first())
    } else {
        0
    }
}

proof fn lemma_count_digits_is(s: Seq<char>, k: int)
    requires
        0 <= k <= s.len(),
        forall|m: int| 0 <= m < k ==> is_digit(#[trigger] s[m]),
        k < s.len() ==> !is_digit(s[k]),
    ensures
        count_digits(s) == k,
    decreases k,
{
    if k > 0 {
        assert forall|m: int| 0 <= m < k - 1 implies is_digit(#[trigger] s.drop_first()[m]) by {
            assert(s.drop_first()[m] == s[m + 1]);
        }
        assert(k - 1 < s.drop_first().len() ==> s.drop_first()[k - 1] == s[k]);
        lemma_count_digits_is(s.drop_first(), k - 1);
    }
}

proof fn lemma_count_spaces_is(s: Seq<char>, k: int)
    requires
        0 <= k <= s.len(),
        forall|m: int| 0 <= m < k ==> is_space(#[trigger] s[m]),
        k < s.len() ==> !is_space(s[k]),
    ensures
        count_spaces(s) == k,
    decreases k,
{
    if k > 0 {
        assert forall|m: int| 0 <= m < k - 1 implies is_space(#[trigger] s.drop_first()[m]) by {
            assert(s.drop_first()[m] == s[m + 1]);
        }
        assert(k - 1 < s.drop_first().len() ==> s.drop_first()[k - 1] == s[k]);
        lemma_count_spaces_is(s.drop_first(), k - 1);
    }
}

proof fn lemma_count_name_chars_is(s: Seq<char>, k: int)
    requires
        0 <= k <= s.len(),
        forall|m: int| 0 <= m < k ==> is_name_char(#[trigger] s[m]),
        k < s.len() ==> !is_name_char(s[k]),
    ensures
        count_name_chars(s) == k,
    decreases k,
{
    if k > 0 {
        assert forall|m: int| 0 <= m < k - 1 implies is_name_char(
            #[trigger] s.drop_first()[m],
        ) by {
            assert(s.drop_first()[m] == s[m + 1]);
        }
        assert(k - 1 < s.drop_first().len() ==> s.drop_first()[k - 1] == s[k]);
        lemma_count_name_chars_is(s.drop_first(), k - 1);
    }
}

proof fn lemma_count_digits_le(s: Seq<char>)
    ensures
        count_digits(s) <= s.len(),
    decreases s.len(),
{
    if s.len() > 0 && is_digit(s[0]) {
        lemma_count_digits_le(s.drop_first());
    }
}

proof fn lemma_count_name_chars_le(s: Seq<char>)
    ensures
        count_name_chars(s) <= s.len(),
    decreases s.len(),
{
    if s.len() > 0 && is_name_char(s[0]) {
        lemma_count_name_chars_le(s.drop_first());
    }
}

/// `s` with leading and trailing whitespace dropped.
pub open spec fn trim_spaces(s: Seq<char>) -> Seq<char>
    decreases s.len(),
{
    if s.len() == 0 {
        s
    } else if is_space(s[0]) {
        trim_spaces(s.drop_first())
    } else if is_space(s.last()) {
        trim_spaces(s.drop_last())
    } else {
        s
    }
}

proof fn lemma_trim_spaces_noop(s: Seq<char>)
    requires
        s.len() > 0 ==> !is_space(s[0]),
        s.len() > 0 ==> !is_space(s.last()),
    ensures
        trim_spaces(s) == s,
{
}

proof fn lemma_trim_spaces_skip_leading(s: Seq<char>, a: int)
    requires
        0 <= a <= s.len(),
        forall|m: int| 0 <= m < a ==> is_space(#[trigger] s[m]),
    ensures
        trim_spaces(s) == trim_spaces(s.skip(a)),
    decreases a,
{
    if a > 0 {
        assert(is_space(s[0]));
        assert(s.drop_first() =~= s.skip(1));
        assert forall|m: int| 0 <= m < a - 1 implies is_space(#[trigger] s.skip(1)[m]) by {
            assert(s.skip(1)[m] == s[m + 1]);
        }
        assert(s.skip(1).skip(a - 1) =~= s.skip(a));
        lemma_trim_spaces_skip_leading(s.skip(1), a - 1);
    } else {
        assert(s.skip(0) =~= s);
    }
}

proof fn lemma_trim_spaces_drop_trailing(s: Seq<char>, b: int)
    requires
        0 <= b <= s.len(),
        s.len() > b ==> !is_space(s[0]),
        forall|m: int| s.len() - b <= m < s.len() ==> is_space(#[trigger] s[m]),
    ensures
        trim_spaces(s) == trim_spaces(s.take(s.len() - b)),
    decreases b,
{
    if b > 0 {
        assert(is_space(s.last()));
        if s.len() == b {
            // all spaces: first is a space too
            assert(is_space(s[0]));
            assert(s.drop_first() =~= s.skip(1));
            assert forall|m: int| s.skip(1).len() - (b - 1) <= m < s.skip(1).len() implies is_space(
                #[trigger] s.skip(1)[m],
            ) by {
                assert(s.skip(1)[m] == s[m + 1]);
            }
            lemma_trim_spaces_drop_trailing(s.skip(1), b - 1);
            assert(s.skip(1).take(s.skip(1).len() - (b - 1)) =~= s.take(s.len() - b));
        } else {
            assert(!is_space(s[0]));
            assert(s.drop_last() =~= s.take(s.len() - 1));
            assert forall|m: int| s.take(s.len() - 1).len() - (b - 1) <= m < s.take(
                s.len() - 1,
            ).len() implies is_space(#[trigger] s.take(s.len() - 1)[m]) by {
                assert(s.take(s.len() - 1)[m] == s[m]);
            }
            lemma_trim_spaces_drop_trailing(s.take(s.len() - 1), b - 1);
            assert(s.take(s.len() - 1).take(s.len() - b) =~= s.take(s.len() - b));
        }
    } else {
        assert(s.take(s.len() - 0) =~= s);
    }
}

/// The fragments the scanner finds in sanitized text, in input order, or
/// `None` if some fragment's quantity does not fit a `u64`. Each fragment is
/// a digit run, then at least one whitespace character, then a run of
/// alphabetic words; its name is the word run, trimmed and lowercased. A
/// digit run not followed by whitespace and a letter matches nothing and is
/// passed over.
pub open spec fn scan(s: Seq<char>) -> Option<Seq<(u64, Seq<char>)>>
    decreases s.len(),
    via scan_decreases
{
    if s.len() == 0 {
        Some(Seq::empty())
    } else if !is_digit(s[0]) {
        scan(s.drop_first())
    } else {
        let d = count_digits(s) as int;
        let rest = s.skip(d);
        let w = count_spaces(rest) as int;
        if 1 <= w && w < rest.len() && is_alpha(rest[w]) {
            let n = count_name_chars(rest) as int;
            let name = lower_all(trim_spaces(rest.take(n)));
            let amount = digits_val(s.take(d));
            if amount > u64::MAX {
                None
            } else {
                match scan(rest.skip(n)) {
                    Some(items) => Some(seq![(amount as u64, name)] + items),
                    None => None,
                }
            }
        } else {
            scan(rest)
        }
    }
}

#[via_fn]
proof fn scan_decreases(s: Seq<char>) {
    if s.len() > 0 && is_digit(s[0]) {
        lemma_count_digits_le(s);
        let d = count_digits(s) as int;
        assert(d >= 1);
        let rest = s.skip(d);
        lemma_count_name_chars_le(rest);
        if count_spaces(rest) >= 1 {
            assert(count_name_chars(rest) >= 1);
        }
    }
}

/// The name every line of water is converted to.
pub open spec fn water_name() -> Seq<char> {
    "water"@
}

/// The name a converted water line carries.
pub open spec fn corpse_name() -> Seq<char> {
    "corpse"@
}

/// What one parsed line contributes to the converted list: a water line
/// yields whole corpses only (the remainder is dropped, and a line below one
/// whole corpse disappears); any other line passes through.
pub open spec fn convert_one(item: (u64, Seq<char>)) -> Seq<(u64, Seq<char>)> {
    if item.1 == water_name() {
        if item.0 / WATER_PER_CORPSE > 0 {
            seq![(item.0 / WATER_PER_CORPSE, corpse_name())]
        } else {
            Seq::empty()
        }
    } else {
        seq![item]
    }
}

/// The parsed list after unit conversion, order preserved.
pub open spec fn convert_items(items: Seq<(u64, Seq<char>)>) -> Seq<(u64, Seq<char>)>
    decreases items.len(),
{
    if items.len() == 0 {
        Seq::empty()
    } else {
        convert_items(items.drop_last()) + convert_one(items.last())
    }
}

/// The `(amount, name)` pairs of an executable list, names as sequences.
pub open spec fn items_view(v: Seq<(u64, String)>) -> Seq<(u64, Seq<char>)> {
    v.map_values(|p: (u64, String)| (p.0, p.1@))
}

/// The outcome of a whole parse: sanitize, scan, convert.
pub open spec fn parse_spec(raw: Seq<char>) -> Option<Seq<(u64, Seq<char>)>> {
    match scan(sanitize_spec(raw)) {
        Some(items) => Some(convert_items(items)),
        None => None,
    }
}

/// One line of the preview shown back to the requester before finishing.
#[derive(Debug, PartialEq, Eq)]
pub enum PreviewLine {
    /// A line kept as parsed.
    Plain { amount: u64, name: String },
    /// A water line, shown with the corpses it converts to (possibly zero).
    Converted { water: u64, corpses: u64 },
}

/// Spec-level image of a [`PreviewLine`].
pub enum PreviewLineModel {
    Plain { amount: u64, name: Seq<char> },
    Converted { water: u64, corpses: u64 },
}

impl View for PreviewLine {
    type V = PreviewLineModel;

    open spec fn view(&self) -> PreviewLineModel {
        match self {
            PreviewLine::Plain { amount, name } => (PreviewLineModel::Plain {
                amount: *amount,
                name: name@,
            }),
            PreviewLine::Converted { water, corpses } => (PreviewLineModel::Converted {
                water: *water,
                corpses: *corpses,
            }),
        }
    }
}

/// The preview line one parsed item produces.
pub open spec fn preview_one(item: (u64, Seq<char>)) -> PreviewLineModel {
    if item.1 == water_name() {
        PreviewLineModel::Converted { water: item.0, corpses: item.0 / WATER_PER_CORPSE }
    } else {
        PreviewLineModel::Plain { amount: item.0, name: item.1 }
    }
}

/// The preview of a whole parsed list, one line per item, in order.
pub open spec fn preview_spec(items: Seq<(u64, Seq<char>)>) -> Seq<PreviewLineModel>
    decreases items.len(),
{
    if items.len() == 0 {
        Seq::empty()
    } else {
        preview_spec(items.drop_last()).push(preview_one(items.last()))
    }
}

/// The views of a vector of preview lines.
pub open spec fn preview_view(v: Seq<PreviewLine>) -> Seq<PreviewLineModel> {
    v.map_values(|l: PreviewLine| l@)
}

fn strip_commas_exec(v: &Vec<char>) -> (out: Vec<char>)
    ensures
        out@ == strip_commas(v@),
{
    let mut out: Vec<char> = Vec::new();
    let mut i: usize = 0;
    while i < v.len()
        invariant
            i <= v@.len(),
            out@ == strip_commas(v@.take(i as int)),
        decreases v@.len() - i,
    {
        proof {
            assert(v@.take(i as int + 1).drop_last() =~= v@.take(i as int));
        }
        if v[i] != ',' {
            out.push(v[i]);
        }
        i = i + 1;
    }
    proof {
        assert(v@.take(v@.len() as int) =~= v@);
    }
    out
}

fn strip_syms_exec(v: &Vec<char>) -> (out: Vec<char>)
    ensures
        out@ == strip_syms(v@),
{
    let mut out: Vec<char> = Vec::new();
    let mut i: usize = 0;
    while i < v.len()
        invariant
            i <= v@.len(),
            out@ == strip_syms(v@.take(i as int)),
        decreases v@.len() - i,
    {
        proof {
            assert(v@.take(i as int + 1).drop_last() =~= v@.take(i as int));
        }
        let c = v[i];
        if !(c == '-' || c == '\u{2022}' || c == ':') {
            out.push(c);
        }
        i = i + 1;
    }
    proof {
        assert(v@.take(v@.len() as int) =~= v@);
    }
    out
}

fn replace_x_sep_exec(v: &Vec<char>) -> (out: Vec<char>)
    ensures
        out@ == replace_x_sep(v@),
{
    let mut out: Vec<char> = Vec::new();
    let mut i: usize = 0;
    proof {
        assert(v@.skip(0) =~= v@);
        assert(out@ + replace_x_sep(v@) =~= replace_x_sep(v@));
    }
    while i < v.len()
        invariant
            i <= v@.len(),
            replace_x_sep(v@) == out@ + replace_x_sep(v@.skip(i as int)),
        decreases v@.len() - i,
    {
        let ghost rest = v@.skip(i as int);
        if v.len() >= 3 && i < v.len() - 2 && v[i] == ' ' && v[i + 1] == 'x' && v[i + 2] == ' ' {
            proof {
                assert(rest.skip(3) =~= v@.skip(i as int + 3));
                assert(out@ + replace_x_sep(rest) =~= (out@ + seq![' ']) + replace_x_sep(
                    rest.skip(3),
                ));
            }
            out.push(' ');
            i = i + 3;
        } else {
            proof {
                assert(rest.drop_first() =~= v@.skip(i as int + 1));
                assert(out@ + replace_x_sep(rest) =~= (out@ + seq![rest[0]]) + replace_x_sep(
                    rest.drop_first(),
                ));
            }
            out.push(v[i]);
            i = i + 1;
        }
    }
    proof {
        assert(v@.skip(v@.len() as int) =~= Seq::<char>::empty());
        assert(out@ + replace_x_sep(Seq::<char>::empty()) =~= out@);
    }
    out
}

/// Sanitizes a raw resource list, as [`sanitize_spec`] describes.
fn sanitize(v: &Vec<char>) -> (out: Vec<char>)
    ensures
        out@ == sanitize_spec(v@),
{
    let a = strip_commas_exec(v);
    let b = replace_x_sep_exec(&a);
    strip_syms_exec(&b)
}

/// Reads the digit run `v[from..to)` as a `u64`, or reports that its value
/// does not fit.
fn parse_amount(v: &Vec<char>, from: usize, to: usize) -> (r: Option<u64>)
    requires
        from <= to <= v@.len(),
        forall|m: int| from <= m < to ==> is_digit(#[trigger] v@[m]),
    ensures
        match r {
            Some(a) => digits_val(v@.subrange(from as int, to as int)) == a,
            None => digits_val(v@.subrange(from as int, to as int)) > u64::MAX,
        },
{
    let mut acc: u64 = 0;
    let mut i: usize = from;
    proof {
        assert(v@.subrange(from as int, from as int) =~= Seq::<char>::empty());
    }
    while i < to
        invariant
            from <= i <= to <= v@.len(),
            forall|m: int| from <= m < to ==> is_digit(#[trigger] v@[m]),
            acc == digits_val(v@.subrange(from as int, i as int)),
        decreases to - i,
    {
        let d = digit_value(v[i]);
        let ghost whole = v@.subrange(from as int, to as int);
        let ghost cur = v@.subrange(from as int, i as int + 1);
        proof {
            assert(cur.drop_last() =~= v@.subrange(from as int, i as int));
            assert(cur.last() == v@[i as int]);
            assert(whole.take(i + 1 - from) =~= cur);
        }
        let m = match acc.checked_mul(10) {
            Some(m) => m,
            None => {
                proof {
                    lemma_digits_val_prefix_le(whole, i + 1 - from);
                }
                return None;
            },
        };
        let s2 = match m.checked_add(d) {
            Some(s2) => s2,
            None => {
                proof {
                    lemma_digits_val_prefix_le(whole, i + 1 - from);
                }
                return None;
            },
        };
        acc = s2;
        i = i + 1;
    }
    proof {
        assert(v@.subrange(from as int, to as int) =~= v@.subrange(from as int, i as int));
    }
    Some(acc)
}

/// Scans sanitized text for `quantity name` fragments, as [`scan`] describes.
#[verifier::rlimit(100)]
fn scan_items(v: &Vec<char>) -> (r: Result<Vec<(u64, String)>, RequestError>)
    ensures
        match r {
            Ok(items) => scan(v@) == Some(items_view(items@)),
            Err(e) => e == RequestError::ParseError && scan(v@) is None,
        },
{
    let n = v.len();
    let mut out: Vec<(u64, String)> = Vec::new();
    let mut i: usize = 0;
    proof {
        assert(v@.skip(0) =~= v@);
        assert(items_view(out@) =~= Seq::<(u64, Seq<char>)>::empty());
    }
    while i < n
        invariant
            i <= n == v@.len(),
            match scan(v@.skip(i as int)) {
                Some(rest) => scan(v@) == Some(items_view(out@) + rest),
                None => scan(v@) is None,
            },
        decreases n - i,
    {
        let ghost s_i = v@.skip(i as int);
        if !digit_char(v[i]) {
            proof {
                assert(s_i.drop_first() =~= v@.skip(i as int + 1));
            }
            i = i + 1;
        } else {
            // the maximal digit run is v[i..j)
            let mut j: usize = i + 1;
            while j < n && digit_char(v[j])
                invariant
                    i < j <= n == v@.len(),
                    forall|m: int| i <= m < j ==> is_digit(#[trigger] v@[m]),
                decreases n - j,
            {
                j = j + 1;
            }
            proof {
                assert forall|m: int| 0 <= m < j - i implies is_digit(#[trigger] s_i[m]) by {
                    assert(s_i[m] == v@[i + m]);
                }
                assert(j - i < s_i.len() ==> s_i[j - i] == v@[j as int]);
                lemma_count_digits_is(s_i, j - i);
            }
            let ghost d = (j - i) as int;
            let ghost rest = s_i.skip(d);
            proof {
                assert(rest =~= v@.skip(j as int));
            }
            // the whitespace run after the digits is v[j..k)
            let mut k: usize = j;
            while k < n && space_char(v[k])
                invariant
                    j <= k <= n == v@.len(),
                    forall|m: int| j <= m < k ==> is_space(#[trigger] v@[m]),
                decreases n - k,
            {
                k = k + 1;
            }
            proof {
                assert forall|m: int| 0 <= m < k - j implies is_space(#[trigger] rest[m]) by {
                    assert(rest[m] == v@[j + m]);
                }
                assert(k - j < rest.len() ==> rest[k - j] == v@[k as int]);
                lemma_count_spaces_is(rest, k - j);
            }
            if k > j && k < n && alpha_char(v[k]) {
                // the name region is v[j..f): the spaces, then words
                let mut f: usize = k + 1;
                while f < n && (alpha_char(v[f]) || space_char(v[f]))
                    invariant
                        k < f <= n == v@.len(),
                        forall|m: int| k + 1 <= m < f ==> is_name_char(#[trigger] v@[m]),
                    decreases n - f,
                {
                    f = f + 1;
                }
                proof {
                    assert forall|m: int| 0 <= m < f - j implies is_name_char(
                        #[trigger] rest[m],
                    ) by {
                        assert(rest[m] == v@[j + m]);
                    }
                    assert(f - j < rest.len() ==> rest[f - j] == v@[f as int]);
                    lemma_count_name_chars_is(rest, f - j);
                }
                match parse_amount(v, i, j) {
                    None => {
                        proof {
                            assert(s_i.take(d) =~= v@.subrange(i as int, j as int));
                            assert(scan(s_i) is None);
                        }
                        return Err(RequestError::ParseError);
                    },
                    Some(amt) => {
                        // drop the region's trailing whitespace: name is v[k..g)
                        let mut g: usize = f;
                        while g > k + 1 && space_char(v[g - 1])
                            invariant
                                k + 1 <= g <= f <= n == v@.len(),
                                forall|m: int| g <= m < f ==> is_space(#[trigger] v@[m]),
                            decreases g,
                        {
                            g = g - 1;
                        }
                        proof {
                            let region = rest.take(f - j);
                            assert(region =~= v@.subrange(j as int, f as int));
                            assert forall|m: int| 0 <= m < k - j implies is_space(
                                #[trigger] region[m],
                            ) by {
                                assert(region[m] == v@[j + m]);
                            }
                            lemma_trim_spaces_skip_leading(region, k - j);
                            let core0 = region.skip(k - j);
                            assert(core0 =~= v@.subrange(k as int, f as int));
                            assert(core0[0] == v@[k as int]);
                            assert forall|m: int| core0.len() - (f - g) <= m < core0.len()
                                implies is_space(#[trigger] core0[m]) by {
                                assert(core0[m] == v@[k + m]);
                            }
                            lemma_trim_spaces_drop_trailing(core0, f - g);
                            let core = core0.take(core0.len() - (f - g));
                            assert(core =~= v@.subrange(k as int, g as int));
                            if g == k + 1 {
                                assert(core.last() == v@[k as int]);
                            } else {
                                assert(core.last() == v@[g as int - 1]);
                            }
                            lemma_trim_spaces_noop(core);
                            assert(trim_spaces(region) == v@.subrange(k as int, g as int));
                        }
                        // the name: v[k..g), lowercased
                        let mut name_chars: Vec<char> = Vec::new();
                        let mut p: usize = k;
                        proof {
                            assert(name_chars@ =~= lower_all(
                                v@.subrange(k as int, k as int),
                            ));
                        }
                        while p < g
                            invariant
                                k <= p <= g <= v@.len(),
                                name_chars@ =~= lower_all(v@.subrange(k as int, p as int)),
                            decreases g - p,
                        {
                            name_chars.push(lowercase_char(v[p]));
                            p = p + 1;
                            proof {
                                assert(name_chars@ =~= lower_all(
                                    v@.subrange(k as int, p as int),
                                ));
                            }
                        }
                        let name = chars_to_string(&name_chars);
                        let ghost out0 = out@;
                        out.push((amt, name));
                        proof {
                            assert(s_i.take(d) =~= v@.subrange(i as int, j as int));
                            assert(digits_val(s_i.take(d)) == amt);
                            assert(name@ == lower_all(trim_spaces(rest.take(f - j))));
                            assert(rest.skip(f - j) =~= v@.skip(f as int));
                            assert(items_view(out@) =~= items_view(out0) + seq![
                                (amt, name@),
                            ]);
                            match scan(v@.skip(f as int)) {
                                Some(items2) => {
                                    assert(scan(s_i) == Some(
                                        seq![(amt, name@)] + items2,
                                    ));
                                    assert(items_view(out0) + (seq![(amt, name@)] + items2)
                                        =~= items_view(out@) + items2);
                                },
                                None => {
                                    assert(scan(s_i) is None);
                                },
                            }
                        }
                        i = f;
                    },
                }
            } else {
                proof {
                    assert(scan(s_i) == scan(v@.skip(j as int)));
                }
                i = j;
            }
        }
    }
    proof {
        assert(v@.skip(n as int) =~= Seq::<char>::empty());
        assert(items_view(out@) + Seq::<(u64, Seq<char>)>::empty() =~= items_view(out@));
    }
    Ok(out)
}

/// Parses a raw resource list into its matched `(amount, name)` pairs, in
/// input order, before unit conversion. Fails exactly when some matched
/// fragment's quantity does not fit a `u64`; text without any match yields
/// an empty list, not an error.
pub fn parse_raw_items(raw: &str) -> (r: Result<Vec<(u64, String)>, RequestError>)
    ensures
        match r {
            Ok(items) => scan(sanitize_spec(raw@)) == Some(items_view(items@)),
            Err(e) => e == RequestError::ParseError && scan(sanitize_spec(raw@)) is None,
        },
{
    let v = chars_of(raw);
    let s = sanitize(&v);
    scan_items(&s)
}

/// Applies the water-to-corpse conversion to a parsed list, in order.
pub fn convert_resources(items: &Vec<(u64, String)>) -> (out: Vec<(u64, String)>)
    ensures
        items_view(out@) == convert_items(items_view(items@)),
{
    let water: String = "water".to_owned();
    let mut out: Vec<(u64, String)> = Vec::new();
    let mut idx: usize = 0;
    let ghost full = items_view(items@);
    proof {
        assert(items_view(out@) =~= Seq::<(u64, Seq<char>)>::empty());
        assert(full.take(0) =~= Seq::<(u64, Seq<char>)>::empty());
    }
    while idx < items.len()
        invariant
            idx <= items@.len(),
            full == items_view(items@),
            water@ == water_name(),
            items_view(out@) == convert_items(full.take(idx as int)),
        decreases items@.len() - idx,
    {
        let item = &items[idx];
        let ghost out0 = out@;
        if item.1 == water {
            let corpses = item.0 / WATER_PER_CORPSE;
            if corpses > 0 {
                out.push((corpses, "corpse".to_owned()));
            }
        } else {
            out.push((item.0, item.1.clone()));
        }
        idx = idx + 1;
        proof {
            assert(full.take(idx as int).drop_last() =~= full.take(idx as int - 1));
            assert(full.take(idx as int).last() == full[idx as int - 1]);
            assert(full[idx as int - 1] == (items@[idx as int - 1].0, items@[idx as int - 1].1@));
            assert(items_view(out@) =~= items_view(out0) + convert_one(full[idx as int - 1]));
        }
    }
    proof {
        assert(full.take(items@.len() as int) =~= full);
    }
    out
}

/// The preview of a parsed list, one line per item, conversion shown.
pub fn preview_resources(items: &Vec<(u64, String)>) -> (out: Vec<PreviewLine>)
    ensures
        preview_view(out@) == preview_spec(items_view(items@)),
{
    let water: String = "water".to_owned();
    let mut out: Vec<PreviewLine> = Vec::new();
    let mut idx: usize = 0;
    let ghost full = items_view(items@);
    proof {
        assert(preview_view(out@) =~= Seq::<PreviewLineModel>::empty());
        assert(full.take(0) =~= Seq::<(u64, Seq<char>)>::empty());
    }
    while idx < items.len()
        invariant
            idx <= items@.len(),
            full == items_view(items@),
            water@ == water_name(),
            preview_view(out@) == preview_spec(full.take(idx as int)),
        decreases items@.len() - idx,
    {
        let item = &items[idx];
        let ghost out0 = out@;
        if item.1 == water {
            out.push(PreviewLine::Converted { water: item.0, corpses: item.0 / WATER_PER_CORPSE });
        } else {
            out.push(PreviewLine::Plain { amount: item.0, name: item.1.clone() });
        }
        idx = idx + 1;
        proof {
            assert(full.take(idx as int).drop_last() =~= full.take(idx as int - 1));
            assert(full.take(idx as int).last() == full[idx as int - 1]);
            assert(full[idx as int - 1] == (items@[idx as int - 1].0, items@[idx as int - 1].1@));
            assert(preview_view(out@) =~= preview_view(out0).push(
                preview_one(full[idx as int - 1]),
            ));
        }
    }
    proof {
        assert(full.take(items@.len() as int) =~= full);
    }
    out
}

/// The coercion a ledger cell's quantity undergoes: surrounding whitespace
/// trimmed, then a nonempty all-digit value that fits a `u64`; anything else
/// counts as zero.
pub open spec fn parse_u64_or_zero(cell: Seq<char>) -> u64 {
    let t = trim_spaces(cell);
    if t.len() > 0 && (forall|m: int| 0 <= m < t.len() ==> is_digit(#[trigger] t[m]))
        && digits_val(t) <= u64::MAX {
        digits_val(t) as u64
    } else {
        0
    }
}

/// Reads a quantity cell, as [`parse_u64_or_zero`] describes.
pub fn parse_u64_cell(cell: &String) -> (r: u64)
    ensures
        r == parse_u64_or_zero(cell@),
{
    let v = chars_of(cell.as_str());
    let mut lo: usize = 0;
    let mut hi: usize = v.len();
    proof {
        assert(v@.subrange(0, v@.len() as int) =~= v@);
    }
    while lo < hi && space_char(v[lo])
        invariant
            lo <= hi <= v@.len(),
            v@ == cell@,
            trim_spaces(cell@) == trim_spaces(v@.subrange(lo as int, hi as int)),
        decreases hi - lo,
    {
        proof {
            let sub = v@.subrange(lo as int, hi as int);
            assert(sub.drop_first() =~= v@.subrange(lo as int + 1, hi as int));
        }
        lo = lo + 1;
    }
    while lo < hi && space_char(v[hi - 1])
        invariant
            lo <= hi <= v@.len(),
            v@ == cell@,
            trim_spaces(cell@) == trim_spaces(v@.subrange(lo as int, hi as int)),
            lo < hi ==> !is_space(v@[lo as int]),
        decreases hi - lo,
    {
        proof {
            let sub = v@.subrange(lo as int, hi as int);
            assert(sub.drop_last() =~= v@.subrange(lo as int, hi as int - 1));
        }
        hi = hi - 1;
    }
    let ghost t = v@.subrange(lo as int, hi as int);
    proof {
        if lo < hi {
            assert(!is_space(t[0]));
            assert(!is_space(t.last()));
        }
        lemma_trim_spaces_noop(t);
    }
    if lo == hi {
        return 0;
    }
    let mut i: usize = lo;
    while i < hi
        invariant
            lo <= i <= hi <= v@.len(),
            t == v@.subrange(lo as int, hi as int),
            trim_spaces(cell@) == t,
            forall|m: int| lo <= m < i ==> is_digit(#[trigger] v@[m]),
        decreases hi - i,
    {
        if !digit_char(v[i]) {
            proof {
                assert(t[i - lo] == v@[i as int]);
                assert(!is_digit(t[i - lo]));
            }
            return 0;
        }
        i = i + 1;
    }
    proof {
        assert forall|m: int| 0 <= m < t.len() implies is_digit(#[trigger] t[m]) by {
            assert(t[m] == v@[lo + m]);
        }
    }
    match parse_amount(&v, lo, hi) {
        Some(a) => a,
        None => 0,
    }
}

/// A quantity written back in decimal reads in again unchanged: the cell
/// writer and the cell reader agree.
pub proof fn lemma_quantity_round_trip(x: u64)
    ensures
        parse_u64_or_zero(crate::text::dec_digits(x)) == x,
{
    crate::text::lemma_dec_digits_val(x);
    let t = crate::text::dec_digits(x);
    assert(!is_space(t[0]));
    assert(!is_space(t.last()));
    lemma_trim_spaces_noop(t);
}

/// Parses a raw resource list and applies unit conversion: the list a bulk
/// add stores. Fails exactly when some matched fragment's quantity does not
/// fit a `u64`.
pub fn parse_resources(raw: &str) -> (r: Result<Vec<(u64, String)>, RequestError>)
    ensures
        match r {
            Ok(items) => parse_spec(raw@) == Some(items_view(items@)),
            Err(e) => e == RequestError::ParseError && parse_spec(raw@) is None,
        },
{
    match parse_raw_items(raw) {
        Ok(items) => Ok(convert_resources(&items)),
        Err(e) => Err(e),
    }
}

} // verus!
