//! Evidence text: the folded words against which corpus triggers and terms
//! are matched.

use vstd::prelude::*;

use crate::corpus::{CorpusActivation, CorpusDefinition, CorpusTerm, DefinitionView, clone_terms, terms_view};
use crate::fold::{evidence_contains, evidence_contains_term, fold, fold_chars_of};
use crate::prompt::{HistoryTurn, HistoryView, hv, join, sv, turn_texts};
use crate::select::{folded_values, folded_values_of, value_or_empty};
use crate::corpus::term_value;
use crate::text::{
    char_is_alphanumeric, char_is_lowercase, char_is_numeric, char_is_uppercase,
    char_is_whitespace, chars_of, is_alphanumeric, is_lowercase, is_numeric, is_uppercase,
    is_whitespace, string_from_chars,
};

verus! {

broadcast use vstd::string::group_string_axioms;

// ---------------------------------------------------------------------------
// Identifier words.
// ---------------------------------------------------------------------------

/// Whether a character sequence ends with a space.
pub open spec fn ends_with_space(s: Seq<char>) -> bool {
    s.len() > 0 && s.last() == ' '
}

/// One step of splitting identifier words at character `k`: a space before
/// an uppercase letter that follows a lowercase letter or digit, or that
/// starts a word after an acronym; the letter or digit itself; one space in
/// place of any other character.
pub open spec fn split_step(chars: Seq<char>, k: int, expanded: Seq<char>) -> Seq<char> {
    let current = chars[k];
    let has_previous = k > 0;
    let previous = chars[k - 1];
    let has_next = k + 1 < chars.len();
    let next = chars[k + 1];
    let camel = char_is_uppercase(current) && has_previous && (char_is_lowercase(previous)
        || char_is_numeric(previous));
    let acronym = char_is_uppercase(current) && has_previous && char_is_uppercase(previous)
        && has_next && char_is_lowercase(next);
    let spaced = if (camel || acronym) && !ends_with_space(expanded) {
        expanded.push(' ')
    } else {
        expanded
    };
    if char_is_alphanumeric(current) {
        spaced.push(current)
    } else if !ends_with_space(spaced) {
        spaced.push(' ')
    } else {
        spaced
    }
}

/// The words of the first `k` characters of an identifier.
pub open spec fn split_prefix(chars: Seq<char>, k: int) -> Seq<char>
    decreases k,
{
    if k <= 0 {
        Seq::empty()
    } else {
        split_step(chars, k - 1, split_prefix(chars, k - 1))
    }
}

/// An identifier such as `MercyFan` or `HTTPServer` spelled as words.
pub open spec fn split_words(s: Seq<char>) -> Seq<char> {
    split_prefix(s, s.len() as int)
}

/// Spells an identifier as words (see `split_words`).
pub fn split_identifier_words(value: &str) -> (r: String)
    ensures
        r@ == split_words(value@),
{
    let chars = chars_of(value);
    let mut expanded: Vec<char> = Vec::new();
    let mut k: usize = 0;
    while k < chars.len()
        invariant
            0 <= k <= chars@.len(),
            chars@ == value@,
            expanded@ == split_prefix(chars@, k as int),
        decreases chars@.len() - k,
    {
        let current = chars[k];
        let has_previous = k > 0;
        let has_next = k + 1 < chars.len();
        let upper = is_uppercase(current);
        let camel = upper && has_previous && (is_lowercase(chars[k - 1]) || is_numeric(chars[k - 1]));
        let acronym = upper && has_previous && is_uppercase(chars[k - 1]) && has_next && is_lowercase(
            chars[k + 1],
        );
        let ends_space = expanded.len() > 0 && expanded[expanded.len() - 1] == ' ';
        if (camel || acronym) && !ends_space {
            expanded.push(' ');
        }
        if is_alphanumeric(current) {
            expanded.push(current);
        } else if !(expanded.len() > 0 && expanded[expanded.len() - 1] == ' ') {
            expanded.push(' ');
        }
        k = k + 1;
    }
    string_from_chars(expanded.as_slice())
}

// ---------------------------------------------------------------------------
// Compact history text.
// ---------------------------------------------------------------------------

/// The longest history entry kept, in characters.
pub const MAX_HISTORY_TEXT_CHARS: usize = 240;

/// The words of `s` separated by single spaces (`split_whitespace` joined
/// by `" "`), read up to `k`, with whether a space is pending.
pub open spec fn collapse_prefix(s: Seq<char>, k: int) -> (Seq<char>, bool)
    decreases k,
{
    if k <= 0 {
        (Seq::empty(), false)
    } else {
        let (out, pending) = collapse_prefix(s, k - 1);
        let c = s[k - 1];
        if char_is_whitespace(c) {
            (out, out.len() > 0)
        } else if pending {
            (out.push(' ').push(c), false)
        } else {
            (out.push(c), false)
        }
    }
}

/// The words of `s` separated by single spaces.
pub open spec fn collapse_whitespace(s: Seq<char>) -> Seq<char> {
    collapse_prefix(s, s.len() as int).0
}

/// History text: whitespace collapsed, at most `MAX_HISTORY_TEXT_CHARS`
/// characters.
pub open spec fn compact_text(s: Seq<char>) -> Seq<char> {
    let c = collapse_whitespace(s);
    if c.len() <= MAX_HISTORY_TEXT_CHARS {
        c
    } else {
        c.take(MAX_HISTORY_TEXT_CHARS as int)
    }
}

/// Joins the words of a text with single spaces (see `collapse_whitespace`).
pub fn collapse_whitespace_chars(chars: &[char]) -> (r: Vec<char>)
    ensures
        r@ == collapse_whitespace(chars@),
{
    let mut out: Vec<char> = Vec::new();
    let mut pending = false;
    let mut k: usize = 0;
    while k < chars.len()
        invariant
            0 <= k <= chars@.len(),
            (out@, pending) == collapse_prefix(chars@, k as int),
        decreases chars@.len() - k,
    {
        let c = chars[k];
        if is_whitespace(c) {
            pending = out.len() > 0;
        } else {
            if pending {
                out.push(' ');
            }
            out.push(c);
            pending = false;
        }
        k = k + 1;
    }
    out
}

/// Compacts text for history (see `compact_text`).
pub fn compact_history_text(value: &str) -> (r: String)
    ensures
        r@ == compact_text(value@),
{
    let chars = chars_of(value);
    let mut out = collapse_whitespace_chars(chars.as_slice());
    if out.len() > MAX_HISTORY_TEXT_CHARS {
        out.truncate(MAX_HISTORY_TEXT_CHARS);
    }
    string_from_chars(out.as_slice())
}

// ---------------------------------------------------------------------------
// Matching terms against evidence.
// ---------------------------------------------------------------------------

/// Whether some value of a term (trimmed and folded) occurs in the folded
/// evidence on word boundaries.
pub open spec fn term_matches(term: Seq<Seq<char>>, evidence: Seq<char>) -> bool {
    exists|k: int|
        0 <= k < folded_values(term).len() && evidence_contains(evidence, #[trigger] folded_values(term)[k])
}

/// Whether a term matches folded evidence.
pub fn term_matches_evidence(term: &CorpusTerm, evidence: &[char]) -> (r: bool)
    ensures
        r == term_matches(term@, evidence@),
{
    let values = folded_values_of(term);
    let ghost fv = values@.map_values(|x: Vec<char>| x@);
    let mut k: usize = 0;
    while k < values.len()
        invariant
            0 <= k <= values@.len(),
            fv == values@.map_values(|x: Vec<char>| x@),
            fv == folded_values(term@),
            forall|j: int| 0 <= j < k ==> !evidence_contains(evidence@, #[trigger] fv[j]),
        decreases values@.len() - k,
    {
        assert(fv[k as int] == values@[k as int]@);
        if evidence_contains_term(evidence, values[k].as_slice()) {
            return true;
        }
        k = k + 1;
    }
    false
}

/// The terms of a list that match the evidence, in order.
pub open spec fn matching_terms(terms: Seq<Seq<Seq<char>>>, evidence: Seq<char>) -> Seq<Seq<Seq<char>>>
    decreases terms.len(),
{
    if terms.len() == 0 {
        Seq::empty()
    } else if term_matches(terms.last(), evidence) {
        matching_terms(terms.drop_last(), evidence).push(terms.last())
    } else {
        matching_terms(terms.drop_last(), evidence)
    }
}

/// Copies the terms of a list that match the evidence.
pub fn filter_matching(terms: &Vec<CorpusTerm>, evidence: &[char]) -> (r: Vec<CorpusTerm>)
    ensures
        terms_view(r@) == matching_terms(terms_view(terms@), evidence@),
{
    let ghost tv = terms_view(terms@);
    let mut r: Vec<CorpusTerm> = Vec::new();
    let mut i: usize = 0;
    while i < terms.len()
        invariant
            0 <= i <= terms@.len(),
            tv == terms_view(terms@),
            terms_view(r@) == matching_terms(tv.take(i as int), evidence@),
        decreases terms@.len() - i,
    {
        assert(tv.take(i + 1).drop_last() =~= tv.take(i as int));
        assert(tv.take(i + 1).last() == terms@[i as int]@);
        if term_matches_evidence(&terms[i], evidence) {
            let ghost before = terms_view(r@);
            r.push(terms[i].clone());
            assert(terms_view(r@) =~= before.push(terms@[i as int]@));
        }
        i = i + 1;
    }
    assert(tv.take(tv.len() as int) =~= tv);
    r
}

// ---------------------------------------------------------------------------
// Evidence text.
// ---------------------------------------------------------------------------

/// What one runtime term value adds to the evidence: its folded form and the
/// folded form of its identifier words, each after a space.
pub open spec fn value_extra(v: Seq<char>) -> Seq<char> {
    seq![' '] + fold(v) + seq![' '] + fold(split_words(v))
}

/// What one runtime term adds for the task languages, in language order.
pub open spec fn term_extra(term: Seq<Seq<char>>, languages: Seq<Seq<char>>) -> Seq<char>
    decreases languages.len(),
{
    if languages.len() == 0 {
        Seq::empty()
    } else {
        term_extra(term, languages.drop_last()) + match term_value(term, languages.last()) {
            Some(v) => value_extra(v),
            None => Seq::empty(),
        }
    }
}

/// What a list of runtime terms adds.
pub open spec fn terms_extra(terms: Seq<Seq<Seq<char>>>, languages: Seq<Seq<char>>) -> Seq<char>
    decreases terms.len(),
{
    if terms.len() == 0 {
        Seq::empty()
    } else {
        terms_extra(terms.drop_last(), languages) + term_extra(terms.last(), languages)
    }
}

/// What the terms of the `Always` corpora of a snapshot add to the evidence.
pub open spec fn runtime_extra(snapshot: Seq<DefinitionView>, languages: Seq<Seq<char>>) -> Seq<char>
    decreases snapshot.len(),
{
    if snapshot.len() == 0 {
        Seq::empty()
    } else {
        runtime_extra(snapshot.drop_last(), languages) + if snapshot.last().activation
            == CorpusActivation::Always {
            terms_extra(snapshot.last().terms, languages)
        } else {
            Seq::empty()
        }
    }
}

/// Computes `value_extra`.
fn value_extra_exec(v: &str) -> (r: Vec<char>)
    ensures
        r@ == value_extra(v@),
{
    let mut r: Vec<char> = Vec::new();
    r.push(' ');
    let mut a = fold_chars_of(v);
    r.append(&mut a);
    r.push(' ');
    let words = split_identifier_words(v);
    let mut b = fold_chars_of(words.as_str());
    r.append(&mut b);
    assert(r@ =~= value_extra(v@));
    r
}

/// Computes `runtime_extra`.
pub fn runtime_extra_exec(snapshot: &Vec<CorpusDefinition>, languages: &[String]) -> (r: Vec<char>)
    ensures
        r@ == runtime_extra(crate::corpus::definitions_view(snapshot@), sv(languages@)),
{
    let ghost dv = crate::corpus::definitions_view(snapshot@);
    let ghost ls = sv(languages@);
    let mut r: Vec<char> = Vec::new();
    let mut i: usize = 0;
    while i < snapshot.len()
        invariant
            0 <= i <= snapshot@.len(),
            dv == crate::corpus::definitions_view(snapshot@),
            ls == sv(languages@),
            r@ == runtime_extra(dv.take(i as int), ls),
        decreases snapshot@.len() - i,
    {
        assert(dv.take(i + 1).drop_last() =~= dv.take(i as int));
        assert(dv.take(i + 1).last() == snapshot@[i as int]@);
        let ghost base = r@;
        if snapshot[i].activation == CorpusActivation::Always {
            let terms = &snapshot[i].terms;
            let ghost tv = terms_view(terms@);
            let mut j: usize = 0;
            while j < terms.len()
                invariant
                    0 <= j <= terms@.len(),
                    tv == terms_view(terms@),
                    ls == sv(languages@),
                    r@ == base + terms_extra(tv.take(j as int), ls),
                decreases terms@.len() - j,
            {
                assert(tv.take(j + 1).drop_last() =~= tv.take(j as int));
                assert(tv.take(j + 1).last() == terms@[j as int]@);
                let ghost mid = r@;
                let mut q: usize = 0;
                while q < languages.len()
                    invariant
                        0 <= q <= languages@.len(),
                        0 <= j < terms@.len(),
                        ls == sv(languages@),
                        r@ == mid + term_extra(terms@[j as int]@, ls.take(q as int)),
                    decreases languages@.len() - q,
                {
                    assert(ls.take(q + 1).drop_last() =~= ls.take(q as int));
                    assert(ls.take(q + 1).last() == languages@[q as int]@);
                    let ghost before = r@;
                    match terms[j].value(languages[q].as_str()) {
                        Some(v) => {
                            let mut extra = value_extra_exec(v.as_str());
                            r.append(&mut extra);
                            assert(r@ =~= before + value_extra(v@));
                        },
                        None => {},
                    }
                    assert(r@ =~= mid + term_extra(terms@[j as int]@, ls.take(q + 1)));
                    q = q + 1;
                }
                assert(ls.take(ls.len() as int) =~= ls);
                assert(r@ =~= base + terms_extra(tv.take(j + 1), ls));
                j = j + 1;
            }
            assert(tv.take(tv.len() as int) =~= tv);
        } else {
            assert(r@ =~= base + Seq::<char>::empty());
        }
        i = i + 1;
    }
    assert(dv.take(dv.len() as int) =~= dv);
    r
}

/// The texts that make up evidence: the transcripts, then each confirmed
/// pair's source and translation, then the current hints.
pub open spec fn evidence_texts(
    transcripts: Seq<Seq<char>>,
    dialogue: Seq<HistoryView>,
    hints: Seq<Seq<char>>,
) -> Seq<Seq<char>> {
    transcripts + turn_texts(dialogue) + hints
}

/// Folded evidence of the history and the current hints.
pub open spec fn history_evidence(
    transcripts: Seq<Seq<char>>,
    dialogue: Seq<HistoryView>,
    hints: Seq<Seq<char>>,
) -> Seq<char> {
    fold(join(evidence_texts(transcripts, dialogue, hints), " "@))
}

/// Folded evidence of the current hints alone.
pub open spec fn current_evidence(hints: Seq<Seq<char>>) -> Seq<char> {
    fold(join(hints, " "@))
}

} // verus!
