//! Canonical resource keys. Two raw names denote the same resource exactly
//! when their normalized forms are equal: normalization drops surrounding
//! whitespace and double quotes, turns non-breaking spaces into ordinary
//! spaces, and lowercases ASCII letters.

use vstd::prelude::*;
use crate::text::{
    is_mark, canon_char, lower_char, mark_char, canonicalize_char, chars_of, chars_to_string,
    lemma_canon_char_idempotent, lemma_canon_char_preserves_mark,
};

verus! {

/// `s` with every leading and trailing mark (whitespace or double quote)
/// removed.
pub open spec fn trim_marks(s: Seq<char>) -> Seq<char>
    decreases s.len(),
{
    if s.len() == 0 {
        s
    } else if is_mark(s[0]) {
        trim_marks(s.drop_first())
    } else if is_mark(s.last()) {
        trim_marks(s.drop_last())
    } else {
        s
    }
}

/// Every character of `s` canonicalized.
pub open spec fn canon_all(s: Seq<char>) -> Seq<char> {
    s.map_values(|c: char| canon_char(c))
}

/// Every character of `s` lowercased.
pub open spec fn lower_all(s: Seq<char>) -> Seq<char> {
    s.map_values(|c: char| lower_char(c))
}

/// The canonical (normalized) form of a raw resource name: surrounding marks
/// dropped, then each character canonicalized.
pub open spec fn normalize_spec(s: Seq<char>) -> Seq<char> {
    canon_all(trim_marks(s))
}

/// A trimmed sequence never starts or ends with a mark.
pub proof fn lemma_trim_marks_edges(s: Seq<char>)
    ensures
        trim_marks(s).len() > 0 ==> !is_mark(trim_marks(s)[0]),
        trim_marks(s).len() > 0 ==> !is_mark(trim_marks(s).last()),
    decreases s.len(),
{
    if s.len() == 0 {
    } else if is_mark(s[0]) {
        lemma_trim_marks_edges(s.drop_first());
    } else if is_mark(s.last()) {
        lemma_trim_marks_edges(s.drop_last());
    }
}

/// Trimming a sequence whose edges hold no marks keeps it unchanged.
pub proof fn lemma_trim_marks_noop(s: Seq<char>)
    requires
        s.len() > 0 ==> !is_mark(s[0]),
        s.len() > 0 ==> !is_mark(s.last()),
    ensures
        trim_marks(s) == s,
{
}

/// Turns a raw resource name into its canonical lookup key.
///
/// Total: every input maps to a key; unrecognizable text simply normalizes
/// to its own trimmed, lowercased form.
pub fn normalize_resource_key(s: &str) -> (r: String)
    ensures
        r@ == normalize_spec(s@),
{
    let v = chars_of(s);
    let mut lo: usize = 0;
    let mut hi: usize = v.len();
    proof {
        assert(v@.subrange(0, v@.len() as int) =~= v@);
    }
    while lo < hi && mark_char(v[lo])
        invariant
            lo <= hi <= v@.len(),
            v@ == s@,
            trim_marks(s@) == trim_marks(v@.subrange(lo as int, hi as int)),
        decreases hi - lo,
    {
        proof {
            let sub = v@.subrange(lo as int, hi as int);
            assert(sub.drop_first() =~= v@.subrange(lo as int + 1, hi as int));
        }
        lo = lo + 1;
    }
    while lo < hi && mark_char(v[hi - 1])
        invariant
            lo <= hi <= v@.len(),
            v@ == s@,
            trim_marks(s@) == trim_marks(v@.subrange(lo as int, hi as int)),
            lo < hi ==> !is_mark(v@[lo as int]),
        decreases hi - lo,
    {
        proof {
            let sub = v@.subrange(lo as int, hi as int);
            assert(sub.drop_last() =~= v@.subrange(lo as int, hi as int - 1));
        }
        hi = hi - 1;
    }
    proof {
        let sub = v@.subrange(lo as int, hi as int);
        if lo == hi {
            assert(sub.len() == 0);
        } else {
            assert(!is_mark(sub[0]));
            assert(!is_mark(sub.last()));
        }
        lemma_trim_marks_noop(sub);
    }
    let mut out: Vec<char> = Vec::new();
    let mut i: usize = lo;
    while i < hi
        invariant
            lo <= i <= hi <= v@.len(),
            out@ =~= canon_all(v@.subrange(lo as int, i as int)),
        decreases hi - i,
    {
        out.push(canonicalize_char(v[i]));
        i = i + 1;
        proof {
            assert(out@ =~= canon_all(v@.subrange(lo as int, i as int)));
        }
    }
    proof {
        assert(canon_all(v@.subrange(lo as int, hi as int)) =~= normalize_spec(s@));
    }
    chars_to_string(&out)
}

/// Normalization is idempotent: normalizing an already-normalized key
/// changes nothing, so keys can be re-normalized freely.
pub proof fn lemma_normalize_idempotent(s: Seq<char>)
    ensures
        normalize_spec(normalize_spec(s)) == normalize_spec(s),
{
    let t = trim_marks(s);
    let m = canon_all(t);
    lemma_trim_marks_edges(s);
    if m.len() > 0 {
        lemma_canon_char_preserves_mark(t[0]);
        lemma_canon_char_preserves_mark(t.last());
        assert(m.last() == canon_char(t.last()));
        assert(m[0] == canon_char(t[0]));
    }
    lemma_trim_marks_noop(m);
    assert forall|i: int| 0 <= i < m.len() implies canon_all(m)[i] == #[trigger] m[i] by {
        lemma_canon_char_idempotent(t[i]);
    }
    assert(canon_all(m) =~= m);
}

/// Normalization is case-insensitive: lowercasing the raw name first does
/// not change the key.
pub proof fn lemma_normalize_case_insensitive(s: Seq<char>)
    ensures
        normalize_spec(lower_all(s)) == normalize_spec(s),
{
    lemma_trim_marks_commutes_with_lower(s);
    let t = trim_marks(s);
    assert forall|i: int| 0 <= i < t.len() implies canon_all(lower_all(t))[i] == #[trigger] canon_all(
        t,
    )[i] by {
        assert(canon_char(lower_char(t[i])) == canon_char(t[i]));
    }
    assert(canon_all(lower_all(t)) =~= canon_all(t));
}

/// Trimming commutes with lowercasing, because lowercasing maps marks to
/// marks and kept characters to kept characters.
proof fn lemma_trim_marks_commutes_with_lower(s: Seq<char>)
    ensures
        trim_marks(lower_all(s)) == lower_all(trim_marks(s)),
    decreases s.len(),
{
    if s.len() == 0 {
        assert(lower_all(s) =~= Seq::<char>::empty());
        assert(lower_all(trim_marks(s)) =~= Seq::<char>::empty());
    } else if is_mark(s[0]) {
        lemma_trim_marks_commutes_with_lower(s.drop_first());
        assert(lower_all(s).drop_first() =~= lower_all(s.drop_first()));
        assert(is_mark(lower_all(s)[0]));
    } else if is_mark(s.last()) {
        lemma_trim_marks_commutes_with_lower(s.drop_last());
        assert(lower_all(s).drop_last() =~= lower_all(s.drop_last()));
        assert(!is_mark(lower_all(s)[0]));
        assert(is_mark(lower_all(s).last()));
    } else {
        assert(!is_mark(lower_all(s)[0]));
        assert(!is_mark(lower_all(s).last()));
        lemma_trim_marks_noop(lower_all(s));
    }
}

/// Normalization ignores surrounding whitespace and quoting: padding a raw
/// name with marks on either side does not change the key.
pub proof fn lemma_normalize_pad_insensitive(p: Seq<char>, s: Seq<char>, q: Seq<char>)
    requires
        forall|i: int| 0 <= i < p.len() ==> is_mark(#[trigger] p[i]),
        forall|i: int| 0 <= i < q.len() ==> is_mark(#[trigger] q[i]),
    ensures
        normalize_spec(p + s + q) == normalize_spec(s),
{
    assert(p + s + q =~= p + (s + q));
    lemma_trim_marks_prepad(p, s + q);
    lemma_trim_marks_postpad(s, q);
}

/// Leading marks never survive trimming.
proof fn lemma_trim_marks_prepad(p: Seq<char>, s: Seq<char>)
    requires
        forall|i: int| 0 <= i < p.len() ==> is_mark(#[trigger] p[i]),
    ensures
        trim_marks(p + s) == trim_marks(s),
    decreases p.len(),
{
    if p.len() == 0 {
        assert(p + s =~= s);
    } else {
        assert(is_mark((p + s)[0]));
        assert((p + s).drop_first() =~= p.drop_first() + s);
        lemma_trim_marks_prepad(p.drop_first(), s);
    }
}

/// Trailing marks never survive trimming.
proof fn lemma_trim_marks_postpad(s: Seq<char>, q: Seq<char>)
    requires
        forall|i: int| 0 <= i < q.len() ==> is_mark(#[trigger] q[i]),
    ensures
        trim_marks(s + q) == trim_marks(s),
    decreases s.len() + q.len(),
{
    if q.len() == 0 {
        assert(s + q =~= s);
    } else if s.len() == 0 {
        assert((s + q) =~= q);
        assert(is_mark(q[0]));
        assert(q.drop_first() =~= Seq::<char>::empty() + q.drop_first());
        lemma_trim_marks_postpad(Seq::<char>::empty(), q.drop_first());
        assert(trim_marks(Seq::<char>::empty() + q.drop_first()) == trim_marks(
            Seq::<char>::empty(),
        ));
    } else if is_mark(s[0]) {
        assert(is_mark((s + q)[0]));
        assert((s + q).drop_first() =~= s.drop_first() + q);
        lemma_trim_marks_postpad(s.drop_first(), q);
    } else {
        assert(!is_mark((s + q)[0]));
        assert((s + q).last() == q.last());
        assert(is_mark(q.last()));
        assert((s + q).drop_last() =~= s + q.drop_last());
        lemma_trim_marks_postpad(s, q.drop_last());
    }
}

} // verus!
