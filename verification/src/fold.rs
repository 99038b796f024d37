//! Accent- and case-insensitive matching of terms in text.
//!
//! Matching folds text with Unicode compatibility decomposition (NFKD),
//! removes combining marks and lowercases. Folded positions are mapped back to
//! the original text so that reported spans cover whole original characters.

use unicode_normalization::UnicodeNormalization;
use vstd::prelude::*;

use crate::text::{
    char_is_alphanumeric, char_lowercase, chars_of, is_alphanumeric, is_ascii_char, lowercase_char,
    string_from_chars, utf8_len, utf8_width,
};

verus! {

broadcast use vstd::string::group_string_axioms;

/// The characters of the NFKD normalization of a string, as computed by
/// `unicode_normalization`.
pub uninterp spec fn nfkd_chars(s: Seq<char>) -> Seq<char>;

/// What `unicode_normalization::char::is_combining_mark` answers.
pub uninterp spec fn combining_mark(c: char) -> bool;

/// Calls `UnicodeNormalization::nfkd` on a string and collects the result.
#[verifier::external_body]
fn nfkd(s: &str) -> (r: String)
    ensures
        r@ == nfkd_chars(s@),
{
    s.nfkd().collect::<String>()
}

/// Calls `unicode_normalization::char::is_combining_mark`.
#[verifier::external_body]
fn is_combining_mark(c: char) -> (r: bool)
    ensures
        r == combining_mark(c),
{
    unicode_normalization::char::is_combining_mark(c)
}

/// The characters of `s` that are not combining marks.
pub open spec fn strip_marks(s: Seq<char>) -> Seq<char>
    decreases s.len(),
{
    if s.len() == 0 {
        s
    } else {
        let head = strip_marks(s.drop_last());
        if combining_mark(s.last()) {
            head
        } else {
            head.push(s.last())
        }
    }
}

/// Every character replaced by its lowercase expansion.
pub open spec fn lower_all(s: Seq<char>) -> Seq<char>
    decreases s.len(),
{
    if s.len() == 0 {
        s
    } else {
        lower_all(s.drop_last()) + char_lowercase(s.last())
    }
}

/// The match form of a string: NFKD, without combining marks, lowercased.
pub open spec fn fold(s: Seq<char>) -> Seq<char> {
    lower_all(strip_marks(nfkd_chars(s)))
}

/// The folded characters of a string.
pub fn fold_chars_of(value: &str) -> (r: Vec<char>)
    ensures
        r@ == fold(value@),
{
    let decomposed = nfkd(value);
    let cs = chars_of(decomposed.as_str());
    let mut r: Vec<char> = Vec::new();
    let mut i: usize = 0;
    while i < cs.len()
        invariant
            0 <= i <= cs@.len(),
            cs@ == nfkd_chars(value@),
            r@ == lower_all(strip_marks(cs@.take(i as int))),
        decreases cs@.len() - i,
    {
        let c = cs[i];
        assert(cs@.take(i + 1).drop_last() =~= cs@.take(i as int));
        assert(cs@.take(i + 1).last() == c);
        if !is_combining_mark(c) {
            let lower = lowercase_char(c);
            let ghost before = r@;
            let mut j: usize = 0;
            while j < lower.len()
                invariant
                    0 <= j <= lower@.len(),
                    r@ == before + lower@.take(j as int),
                decreases lower@.len() - j,
            {
                r.push(lower[j]);
                assert(lower@.take(j + 1) =~= lower@.take(j as int).push(lower@[j as int]));
                assert(r@ =~= before + lower@.take(j + 1));
                j = j + 1;
            }
            assert(lower@.take(lower@.len() as int) =~= lower@);
            let ghost s = strip_marks(cs@.take(i as int));
            assert(strip_marks(cs@.take(i + 1)) == s.push(c));
            assert(s.push(c).drop_last() =~= s);
        } else {
            assert(strip_marks(cs@.take(i + 1)) == strip_marks(cs@.take(i as int)));
        }
        i = i + 1;
    }
    assert(cs@.take(cs@.len() as int) =~= cs@);
    r
}

/// The folded form of a string.
pub fn fold_for_match(value: &str) -> (r: String)
    ensures
        r@ == fold(value@),
{
    let v = fold_chars_of(value);
    string_from_chars(v.as_slice())
}

// ---------------------------------------------------------------------------
// Non-overlapping occurrences (`str::match_indices`).
// ---------------------------------------------------------------------------

/// Whether `needle` occurs in `hay` at position `p`.
pub open spec fn matches_at(hay: Seq<char>, needle: Seq<char>, p: int) -> bool {
    0 <= p && p + needle.len() <= hay.len() && hay.subrange(p, p + needle.len()) == needle
}

/// Start positions of the leftmost non-overlapping occurrences of a
/// non-empty `needle` in `hay`, scanning from `from`.
pub open spec fn occurrences_from(hay: Seq<char>, needle: Seq<char>, from: int) -> Seq<int>
    decreases hay.len() - from,
{
    if needle.len() == 0 || from < 0 || from + needle.len() > hay.len() {
        Seq::empty()
    } else if matches_at(hay, needle, from) {
        seq![from] + occurrences_from(hay, needle, from + needle.len())
    } else {
        occurrences_from(hay, needle, from + 1)
    }
}

/// Skipping positions without a match does not change the occurrences.
proof fn lemma_occurrences_skip(hay: Seq<char>, needle: Seq<char>, from: int, to: int)
    requires
        needle.len() > 0,
        0 <= from <= to,
        forall|p: int| from <= p < to ==> !matches_at(hay, needle, p),
    ensures
        occurrences_from(hay, needle, from) == occurrences_from(hay, needle, to),
    decreases to - from,
{
    if from < to {
        if from + needle.len() > hay.len() {
            assert(occurrences_from(hay, needle, to) == Seq::<int>::empty());
        } else {
            lemma_occurrences_skip(hay, needle, from + 1, to);
        }
    }
}

/// Whether `needle` occurs at `p`, compared character by character.
fn matches_at_exec(hay: &[char], needle: &[char], p: usize) -> (r: bool)
    ensures
        r == matches_at(hay@, needle@, p as int),
{
    if p > hay.len() || needle.len() > hay.len() - p {
        return false;
    }
    let n = hay.len();
    let mut k: usize = 0;
    while k < needle.len()
        invariant
            n == hay@.len(),
            p + needle@.len() <= hay@.len(),
            0 <= k <= needle@.len(),
            forall|j: int| 0 <= j < k ==> hay@[p + j] == needle@[j],
        decreases needle@.len() - k,
    {
        if hay[p + k] != needle[k] {
            assert(hay@.subrange(p as int, p + needle@.len())[k as int] != needle@[k as int]);
            return false;
        }
        k = k + 1;
    }
    assert(hay@.subrange(p as int, p + needle@.len()) =~= needle@);
    true
}

/// The next occurrence at or after `from`.
fn next_occurrence(hay: &[char], needle: &[char], from: usize) -> (r: Option<usize>)
    requires
        needle@.len() > 0,
    ensures
        match r {
            Some(p) => from <= p && matches_at(hay@, needle@, p as int) && occurrences_from(
                hay@,
                needle@,
                from as int,
            ) == seq![p as int] + occurrences_from(hay@, needle@, p + needle@.len()),
            None => occurrences_from(hay@, needle@, from as int) == Seq::<int>::empty(),
        },
{
    let mut p: usize = from;
    while p < hay.len() && needle.len() <= hay.len() - p
        invariant
            needle@.len() > 0,
            from <= p,
            forall|q: int| from <= q < p ==> !matches_at(hay@, needle@, q),
        decreases hay@.len() - p,
    {
        if matches_at_exec(hay, needle, p) {
            proof {
                lemma_occurrences_skip(hay@, needle@, from as int, p as int);
            }
            return Some(p);
        }
        p = p + 1;
    }
    proof {
        lemma_occurrences_skip(hay@, needle@, from as int, p as int);
    }
    None
}

// ---------------------------------------------------------------------------
// Word boundaries.
// ---------------------------------------------------------------------------

/// Whether every character is ASCII.
pub open spec fn all_ascii(v: Seq<char>) -> bool {
    forall|k: int| 0 <= k < v.len() ==> is_ascii_char(#[trigger] v[k])
}

/// An ASCII term must not continue a word on a side where the term itself
/// starts or ends with a word character; non-ASCII terms match anywhere.
pub open spec fn boundary_ok(text: Seq<char>, start: int, end: int, value: Seq<char>) -> bool {
    !all_ascii(value) || {
        let starts_with_word = value.len() > 0 && char_is_alphanumeric(value[0]);
        let ends_with_word = value.len() > 0 && char_is_alphanumeric(value.last());
        let before_is_word = start > 0 && char_is_alphanumeric(text[start - 1]);
        let after_is_word = end < text.len() && char_is_alphanumeric(text[end]);
        (!starts_with_word || !before_is_word) && (!ends_with_word || !after_is_word)
    }
}

/// Whether all characters of a slice are ASCII.
pub fn is_ascii_chars(v: &[char]) -> (r: bool)
    ensures
        r == all_ascii(v@),
{
    let mut i: usize = 0;
    while i < v.len()
        invariant
            0 <= i <= v@.len(),
            forall|k: int| 0 <= k < i ==> is_ascii_char(#[trigger] v@[k]),
        decreases v@.len() - i,
    {
        if (v[i] as u32) >= 128 {
            return false;
        }
        i = i + 1;
    }
    true
}

/// Checks the word-boundary rule for an occurrence `[start, end)`.
pub fn term_boundary_matches(text: &[char], start: usize, end: usize, value: &[char]) -> (r: bool)
    requires
        start <= end <= text@.len(),
    ensures
        r == boundary_ok(text@, start as int, end as int, value@),
        all_ascii(value@) && value@.len() > 0 && char_is_alphanumeric(value@.last()) && end < text@.len()
            && char_is_alphanumeric(text@[end as int]) ==> !r,
        all_ascii(value@) && value@.len() > 0 && char_is_alphanumeric(value@[0]) && start > 0
            && char_is_alphanumeric(text@[start - 1]) ==> !r,
        !all_ascii(value@) ==> r,
        (start == 0 || !char_is_alphanumeric(text@[start - 1])) && (end == text@.len()
            || !char_is_alphanumeric(text@[end as int])) ==> r,
        !(value@.len() > 0 && char_is_alphanumeric(value@[0]) && start > 0 && char_is_alphanumeric(
            text@[start - 1],
        )) && !(value@.len() > 0 && char_is_alphanumeric(value@.last()) && end < text@.len()
            && char_is_alphanumeric(text@[end as int])) ==> r,
{
    if !is_ascii_chars(value) {
        return true;
    }
    let starts_with_word = value.len() > 0 && is_alphanumeric(value[0]);
    let ends_with_word = value.len() > 0 && is_alphanumeric(value[value.len() - 1]);
    let before_is_word = start > 0 && is_alphanumeric(text[start - 1]);
    let after_is_word = end < text.len() && is_alphanumeric(text[end]);
    (!starts_with_word || !before_is_word) && (!ends_with_word || !after_is_word)
}

/// Whether an already folded term occurs in folded evidence on word
/// boundaries.
pub open spec fn evidence_contains(evidence: Seq<char>, term: Seq<char>) -> bool {
    let occ = occurrences_from(evidence, term, 0);
    term.len() > 0 && exists|k: int|
        0 <= k < occ.len() && boundary_ok(evidence, occ[k], occ[k] + term.len(), term)
}

pub proof fn lemma_occurrences_in_range(hay: Seq<char>, needle: Seq<char>, from: int)
    ensures
        forall|k: int|
            0 <= k < occurrences_from(hay, needle, from).len() ==> from <= #[trigger] occurrences_from(
                hay,
                needle,
                from,
            )[k] && matches_at(hay, needle, occurrences_from(hay, needle, from)[k]),
    decreases hay.len() - from,
{
    let occ = occurrences_from(hay, needle, from);
    if needle.len() == 0 || from < 0 || from + needle.len() > hay.len() {
        assert(occ.len() == 0);
    } else if matches_at(hay, needle, from) {
        let rest = occurrences_from(hay, needle, from + needle.len());
        lemma_occurrences_in_range(hay, needle, from + needle.len());
        assert(occ == seq![from] + rest);
        assert forall|k: int| 0 <= k < occ.len() implies from <= #[trigger] occ[k] && matches_at(
            hay,
            needle,
            occ[k],
        ) by {
            if k > 0 {
                assert(occ[k] == rest[k - 1]);
                assert(from + needle.len() <= rest[k - 1]);
            }
        }
    } else {
        let rest = occurrences_from(hay, needle, from + 1);
        lemma_occurrences_in_range(hay, needle, from + 1);
        assert(occ == rest);
        assert forall|k: int| 0 <= k < occ.len() implies from <= #[trigger] occ[k] && matches_at(
            hay,
            needle,
            occ[k],
        ) by {
            assert(occ[k] == rest[k]);
        }
    }
}

/// Whether a folded term occurs in folded evidence on word boundaries.
/// Evidence contains a term only where the term occurs as a whole word: at
/// some position the evidence holds the term, and for an ASCII term that
/// starts (ends) with a letter or digit the evidence has none right before
/// (after) it.
pub proof fn lemma_evidence_whole_words(evidence: Seq<char>, term: Seq<char>)
    ensures
        evidence_contains(evidence, term) ==> term.len() > 0 && exists|p: int|
            #![trigger evidence.subrange(p, p + term.len())]
            0 <= p && p + term.len() <= evidence.len() && evidence.subrange(p, p + term.len()) == term && (
            all_ascii(term) ==> {
                &&& char_is_alphanumeric(term.last()) && p + term.len() < evidence.len() ==> !char_is_alphanumeric(
                    evidence[p + term.len()],
                )
                &&& char_is_alphanumeric(term[0]) && p > 0 ==> !char_is_alphanumeric(evidence[p - 1])
            }),
{
    if evidence_contains(evidence, term) {
        let occ = occurrences_from(evidence, term, 0);
        lemma_occurrences_in_range(evidence, term, 0);
        let k = choose|k: int| 0 <= k < occ.len() && boundary_ok(evidence, occ[k], occ[k] + term.len(), term);
        let p = occ[k];
        assert(matches_at(evidence, term, p));
        assert(evidence.subrange(p, p + term.len()) == term);
    }
}

pub fn evidence_contains_term(evidence: &[char], term: &[char]) -> (r: bool)
    ensures
        r == evidence_contains(evidence@, term@),
{
    if term.len() == 0 {
        return false;
    }
    let ghost all = occurrences_from(evidence@, term@, 0);
    let ghost mut done: Seq<int> = Seq::empty();
    let n = evidence.len();
    let mut pos: usize = 0;
    proof {
        lemma_occurrences_in_range(evidence@, term@, 0);
    }
    loop
        invariant
            n == evidence@.len(),
            term@.len() > 0,
            all == occurrences_from(evidence@, term@, 0),
            all == done + occurrences_from(evidence@, term@, pos as int),
            forall|k: int| 0 <= k < done.len() ==> !boundary_ok(evidence@, #[trigger] done[k], done[k] + term@.len(), term@),
            forall|k: int|
                0 <= k < all.len() ==> matches_at(evidence@, term@, #[trigger] all[k]),
        decreases evidence@.len() - pos,
    {
        match next_occurrence(evidence, term, pos) {
            None => {
                assert(all =~= done);
                return false;
            },
            Some(p) => {
                let end = p + term.len();
                proof {
                    assert(all =~= done + seq![p as int] + occurrences_from(evidence@, term@, end as int));
                    assert(all[done.len() as int] == p);
                }
                if term_boundary_matches(evidence, p, end, term) {
                    return true;
                }
                proof {
                    done = done.push(p as int);
                }
                pos = end;
            },
        }
    }
}

// ---------------------------------------------------------------------------
// Folded text with a map back to original positions.
// ---------------------------------------------------------------------------

/// The folded form of the single character at index `k` of `t`.
pub open spec fn piece(t: Seq<char>, k: int) -> Seq<char> {
    fold(seq![t[k]])
}

/// Concatenation of the folded pieces of the first `k` characters.
pub open spec fn folded_prefix(t: Seq<char>, k: int) -> Seq<char>
    decreases k,
{
    if k <= 0 {
        Seq::empty()
    } else {
        folded_prefix(t, k - 1) + piece(t, k - 1)
    }
}

/// The folded text: each original character folded on its own.
pub open spec fn folded_text(t: Seq<char>) -> Seq<char> {
    folded_prefix(t, t.len() as int)
}

/// For every folded position of the first `k` characters, the original
/// character index it corresponds to, or `None` inside a folded piece. The
/// start of a non-empty piece maps to its character; the end of the folded
/// text so far maps past any characters that folded to nothing.
pub open spec fn boundaries_upto(t: Seq<char>, k: int) -> Seq<Option<int>>
    decreases k,
{
    if k <= 0 {
        seq![Some(0)]
    } else {
        let b = boundaries_upto(t, k - 1);
        let p = piece(t, k - 1);
        if p.len() == 0 {
            b.update(b.len() - 1, Some(k))
        } else {
            b.update(b.len() - 1, Some(k - 1)) + Seq::new((p.len() - 1) as nat, |i: int| None)
                + seq![Some(k)]
        }
    }
}

/// The boundary map of the whole text.
pub open spec fn boundaries(t: Seq<char>) -> Seq<Option<int>> {
    boundaries_upto(t, t.len() as int)
}

proof fn lemma_boundaries_len(t: Seq<char>, k: int)
    requires
        0 <= k <= t.len(),
    ensures
        boundaries_upto(t, k).len() == folded_prefix(t, k).len() + 1,
        forall|q: int|
            0 <= q < boundaries_upto(t, k).len() ==> (#[trigger] boundaries_upto(t, k)[q] matches Some(
                o,
            ) ==> 0 <= o <= k),
    decreases k,
{
    if k > 0 {
        lemma_boundaries_len(t, k - 1);
    }
}

/// Folded text with its boundary map.
pub struct FoldedText {
    pub text: Vec<char>,
    pub original_boundaries: Vec<Option<usize>>,
}

/// The boundary map as optional integers.
pub open spec fn opt_usize_view(v: Seq<Option<usize>>) -> Seq<Option<int>> {
    v.map_values(|o: Option<usize>| match o {
        Some(x) => Some(x as int),
        None => None,
    })
}

impl FoldedText {
    /// Folds every character of `t` and records the boundary map.
    pub fn new(t: &[char]) -> (r: Self)
        ensures
            r.text@ == folded_text(t@),
            opt_usize_view(r.original_boundaries@) == boundaries(t@),
    {
        let mut text: Vec<char> = Vec::new();
        let mut bounds: Vec<Option<usize>> = Vec::new();
        bounds.push(Some(0));
        proof {
            assert(opt_usize_view(bounds@) =~= seq![Some(0int)]);
        }
        let n = t.len();
        let mut k: usize = 0;
        while k < n
            invariant
                n == t@.len(),
                0 <= k <= t@.len(),
                opt_usize_view(bounds@).len() == bounds@.len(),
                text@ == folded_prefix(t@, k as int),
                opt_usize_view(bounds@) == boundaries_upto(t@, k as int),
            decreases t@.len() - k,
        {
            proof {
                lemma_boundaries_len(t@, k as int);
            }
            let one = string_from_chars(&[t[k]]);
            assert(one@ =~= seq![t@[k as int]]);
            let p = fold_chars_of(one.as_str());
            let ghost b0 = opt_usize_view(bounds@);
            let last = bounds.len() - 1;
            if p.len() == 0 {
                bounds.set(last, Some(k + 1));
                assert(opt_usize_view(bounds@) =~= b0.update(b0.len() - 1, Some(k + 1)));
            } else {
                bounds.set(last, Some(k));
                let ghost b1 = opt_usize_view(bounds@);
                assert(b1 =~= b0.update(b0.len() - 1, Some(k as int)));
                let mut j: usize = 0;
                while j < p.len()
                    invariant
                        0 <= j <= p@.len(),
                        k < n,
                        n == t@.len(),
                        bounds@.len() >= 1,
                        b1.len() >= 1,
                        bounds@.len() == b1.len() + j,
                        opt_usize_view(bounds@).len() == bounds@.len(),
                        p@.len() > 0,
                        text@ == folded_prefix(t@, k as int) + p@.take(j as int),
                        opt_usize_view(bounds@) == b1 + Seq::new(
                            (if j == 0 {
                                0
                            } else {
                                j - 1
                            }) as nat,
                            |i: int| None::<int>,
                        ) + (if j == 0 {
                            Seq::<Option<int>>::empty()
                        } else {
                            seq![Some(k + 1)]
                        }),
                    decreases p@.len() - j,
                {
                    text.push(p[j]);
                    assert(text@ =~= folded_prefix(t@, k as int) + p@.take(j + 1));
                    let ghost v0 = bounds@;
                    if j > 0 {
                        let l = bounds.len() - 1;
                        bounds.set(l, None);
                        proof {
                            let before = opt_usize_view(v0);
                            assert(opt_usize_view(bounds@) =~= before.update(l as int, None));
                            assert(before.update(l as int, None) =~= b1 + Seq::new(
                                j as nat,
                                |i: int| None::<int>,
                            ));
                        }
                    } else {
                        assert(opt_usize_view(bounds@) =~= b1 + Seq::new(
                            j as nat,
                            |i: int| None::<int>,
                        ));
                    }
                    let ghost v1 = bounds@;
                    bounds.push(Some(k + 1));
                    assert(opt_usize_view(bounds@) =~= opt_usize_view(v1).push(Some(k + 1)));
                    assert(opt_usize_view(bounds@) =~= b1 + Seq::new(j as nat, |i: int| None::<int>)
                        + seq![Some(k + 1)]);
                    j = j + 1;
                }
                assert(p@.take(p@.len() as int) =~= p@);
            }
            k = k + 1;
        }
        FoldedText { text, original_boundaries: bounds }
    }
}

// ---------------------------------------------------------------------------
// Term spans in original text.
// ---------------------------------------------------------------------------

/// The original character span of one folded occurrence, when both of its
/// ends are boundaries and it satisfies the word-boundary rule.
pub open spec fn occurrence_span(t: Seq<char>, value: Seq<char>, p: int) -> Option<(int, int)> {
    let f = folded_text(t);
    let b = boundaries(t);
    let e = p + value.len();
    if boundary_ok(f, p, e, value) && 0 <= p < b.len() && 0 <= e < b.len() && b[p] is Some
        && b[e] is Some {
        Some((b[p]->0, b[e]->0))
    } else {
        None
    }
}

/// A folded occurrence of an ASCII term yields a span only on word
/// boundaries: when the term ends with a letter or digit, the folded text
/// does not continue with one right after it, and when the term starts with
/// one, the folded text does not have one right before it.
pub proof fn lemma_occurrence_span_boundaries(t: Seq<char>, value: Seq<char>, p: int)
    ensures
        ({
            let f = folded_text(t);
            let e = p + value.len();
            occurrence_span(t, value, p) is Some && all_ascii(value) && value.len() > 0 ==> {
                &&& char_is_alphanumeric(value.last()) && e < f.len() ==> !char_is_alphanumeric(f[e])
                &&& char_is_alphanumeric(value[0]) && p > 0 ==> !char_is_alphanumeric(f[p - 1])
            }
        }),
{
}

/// Where a term matches depends only on its folded form: terms that fold
/// alike (differing only in case, compatibility forms or marks) match at the
/// same spans.
pub proof fn lemma_term_spans_fold_invariant(t: Seq<char>, a: Seq<char>, b: Seq<char>)
    requires
        fold(a) == fold(b),
    ensures
        term_spans_spec(t, a) == term_spans_spec(t, b),
{
}

/// The spans of a list of folded occurrences.
pub open spec fn occurrence_spans(t: Seq<char>, value: Seq<char>, occ: Seq<int>) -> Seq<(int, int)>
    decreases occ.len(),
{
    if occ.len() == 0 {
        Seq::empty()
    } else {
        let head = occurrence_spans(t, value, occ.drop_last());
        match occurrence_span(t, value, occ.last()) {
            Some(s) => head.push(s),
            None => head,
        }
    }
}

/// Original character spans where the folded `term` occurs in the folded
/// text on word boundaries, left to right and non-overlapping.
pub open spec fn term_spans_spec(t: Seq<char>, term: Seq<char>) -> Seq<(int, int)> {
    let v = fold(term);
    occurrence_spans(t, v, occurrences_from(folded_text(t), v, 0))
}

proof fn lemma_occurrence_spans_push(t: Seq<char>, value: Seq<char>, occ: Seq<int>, p: int)
    ensures
        occurrence_spans(t, value, occ.push(p)) == match occurrence_span(t, value, p) {
            Some(s) => occurrence_spans(t, value, occ).push(s),
            None => occurrence_spans(t, value, occ),
        },
{
    assert(occ.push(p).drop_last() =~= occ);
}

/// The span of one folded occurrence `[p, e)` in original character indices.
pub fn original_span(ft: &FoldedText, p: usize, e: usize) -> (r: Option<(usize, usize)>)
    requires
        p <= e,
        ft.original_boundaries@.len() == ft.text@.len() + 1,
    ensures
        ({
            let b = opt_usize_view(ft.original_boundaries@);
            match r {
                Some((s, f)) => e < b.len() && b[p as int] == Some(s as int) && b[e as int] == Some(
                    f as int,
                ),
                None => !(e < b.len() && b[p as int] is Some && b[e as int] is Some),
            }
        }),
{
    let ghost b = opt_usize_view(ft.original_boundaries@);
    if e >= ft.original_boundaries.len() {
        return None;
    }
    assert(b[p as int] == match ft.original_boundaries@[p as int] {
        Some(x) => Some(x as int),
        None => None,
    });
    assert(b[e as int] == match ft.original_boundaries@[e as int] {
        Some(x) => Some(x as int),
        None => None,
    });
    match (ft.original_boundaries[p], ft.original_boundaries[e]) {
        (Some(s), Some(f)) => Some((s, f)),
        _ => None,
    }
}

/// Original character spans of a term in a text (see `term_spans_spec`).
pub fn term_spans(text: &[char], term: &str) -> (r: Vec<(usize, usize)>)
    ensures
        r@.map_values(|s: (usize, usize)| (s.0 as int, s.1 as int)) == term_spans_spec(text@, term@),
{
    let ft = FoldedText::new(text);
    let value = fold_chars_of(term);
    let mut r: Vec<(usize, usize)> = Vec::new();
    if value.len() == 0 {
        assert(occurrences_from(folded_text(text@), value@, 0) =~= Seq::<int>::empty());
        assert(r@.map_values(|s: (usize, usize)| (s.0 as int, s.1 as int)) =~= Seq::<
            (int, int),
        >::empty());
        return r;
    }
    proof {
        lemma_boundaries_len(text@, text@.len() as int);
        lemma_occurrences_in_range(ft.text@, value@, 0);
    }
    let ghost all = occurrences_from(ft.text@, value@, 0);
    let ghost mut done: Seq<int> = Seq::empty();
    let mut pos: usize = 0;
    loop
        invariant
            value@.len() > 0,
            value@ == fold(term@),
            ft.text@ == folded_text(text@),
            opt_usize_view(ft.original_boundaries@) == boundaries(text@),
            ft.original_boundaries@.len() == ft.text@.len() + 1,
            all == occurrences_from(ft.text@, value@, 0),
            all == done + occurrences_from(ft.text@, value@, pos as int),
            forall|k: int| 0 <= k < all.len() ==> matches_at(ft.text@, value@, #[trigger] all[k]),
            r@.map_values(|s: (usize, usize)| (s.0 as int, s.1 as int)) == occurrence_spans(
                text@,
                value@,
                done,
            ),
        decreases ft.text@.len() - pos,
    {
        match next_occurrence(ft.text.as_slice(), value.as_slice(), pos) {
            None => {
                assert(all =~= done);
                return r;
            },
            Some(p) => {
                let e = p + value.len();
                proof {
                    assert(all =~= done + seq![p as int] + occurrences_from(ft.text@, value@, e as int));
                    lemma_occurrence_spans_push(text@, value@, done, p as int);
                }
                if term_boundary_matches(ft.text.as_slice(), p, e, value.as_slice()) {
                    match original_span(&ft, p, e) {
                        Some(span) => {
                            let ghost before = r@;
                            r.push(span);
                            assert(r@.map_values(|s: (usize, usize)| (s.0 as int, s.1 as int))
                                =~= before.map_values(|s: (usize, usize)| (s.0 as int, s.1 as int)).push(
                                (span.0 as int, span.1 as int),
                            ));
                        },
                        None => {},
                    }
                }
                proof {
                    done = done.push(p as int);
                }
                pos = e;
            },
        }
    }
}

// ---------------------------------------------------------------------------
// Byte offsets.
// ---------------------------------------------------------------------------

/// Byte offsets of every character position: `r[k]` is the UTF-8 length of
/// the first `k` characters.
pub fn byte_offsets(t: &[char]) -> (r: Vec<u128>)
    ensures
        r@.len() == t@.len() + 1,
        forall|k: int| 0 <= k <= t@.len() ==> #[trigger] r@[k] == utf8_len(t@.take(k)),
{
    let mut r: Vec<u128> = Vec::new();
    r.push(0);
    assert(t@.take(0) =~= Seq::<char>::empty());
    let mut total: u128 = 0;
    let mut k: usize = 0;
    while k < t.len()
        invariant
            0 <= k <= t@.len(),
            r@.len() == k + 1,
            total == utf8_len(t@.take(k as int)),
            total <= 4 * k,
            forall|j: int| 0 <= j <= k ==> #[trigger] r@[j] == utf8_len(t@.take(j)),
        decreases t@.len() - k,
    {
        let w = crate::text::char_width(t[k]);
        assert(t@.take(k + 1).drop_last() =~= t@.take(k as int));
        total = total + w as u128;
        r.push(total);
        k = k + 1;
    }
    r
}

} // verus!
