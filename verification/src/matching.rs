//! Highlighting of terminology rows in text.

use vstd::prelude::*;

use crate::fold::{
    FoldedText, boundaries, byte_offsets, fold, fold_chars_of, folded_text, occurrence_span,
    occurrence_spans, occurrences_from, term_spans, term_spans_spec,
};
use crate::language::{language_base, normalized_language_code};
use crate::prompt::keys_contain;
use crate::protocol::{CorpusTermMatch, CorpusTermSource, MatchView, SourceView, matches_view, sources_view};
use crate::rows::{RowView, SelectedPromptTerm, clone_sources, pairs_view, rv, sources_contain};
use crate::text::{chars_eq, chars_of, str_eq, string_from_chars, utf8_len};

verus! {

broadcast use vstd::string::group_string_axioms;

/// Bound on byte offsets that fit a `u32`.
pub open spec fn fits_u32(x: int) -> bool {
    0 <= x < 0x1_0000_0000
}

/// The match reported for an original character span: byte offsets, the
/// original text of the span and the row's sources; absent when an offset
/// does not fit a `u32`.
pub open spec fn span_match(t: Seq<char>, span: (int, int), sources: Seq<SourceView>) -> Option<
    MatchView,
> {
    let bs = utf8_len(t.take(span.0));
    let be = utf8_len(t.take(span.1));
    if 0 <= span.0 <= span.1 <= t.len() && fits_u32(bs as int) && fits_u32(be as int) {
        Some(MatchView { start_byte: bs as u32, end_byte: be as u32, text: t.subrange(span.0, span.1), sources })
    } else {
        None
    }
}

/// The matches of a list of spans.
pub open spec fn spans_matches(t: Seq<char>, spans: Seq<(int, int)>, sources: Seq<SourceView>) -> Seq<
    MatchView,
>
    decreases spans.len(),
{
    if spans.len() == 0 {
        Seq::empty()
    } else {
        let head = spans_matches(t, spans.drop_last(), sources);
        match span_match(t, spans.last(), sources) {
            Some(m) => head.push(m),
            None => head,
        }
    }
}

/// The folded value `v` of a row contributes its spans unless the language
/// filter excludes it or the same folded value was already used for the row.
pub open spec fn row_candidates_from(
    t: Seq<char>,
    pairs: Seq<(Seq<char>, Seq<char>)>,
    sources: Seq<SourceView>,
    language: Option<Seq<char>>,
) -> (Seq<MatchView>, Set<Seq<char>>)
    decreases pairs.len(),
{
    if pairs.len() == 0 {
        (Seq::empty(), Set::empty())
    } else {
        let (found, seen) = row_candidates_from(t, pairs.drop_last(), sources, language);
        let (value_language, value) = pairs.last();
        let v = fold(value);
        if (language matches Some(l) && l != value_language) || v.len() == 0 || seen.contains(v) {
            (found, seen)
        } else {
            (
                found + spans_matches(
                    t,
                    occurrence_spans(t, v, occurrences_from(folded_text(t), v, 0)),
                    sources,
                ),
                seen.insert(v),
            )
        }
    }
}

/// Candidate matches of every row, in row order.
pub open spec fn candidates(t: Seq<char>, rows: Seq<RowView>, language: Option<Seq<char>>) -> Seq<
    MatchView,
>
    decreases rows.len(),
{
    if rows.len() == 0 {
        Seq::empty()
    } else {
        candidates(t, rows.drop_last(), language) + row_candidates_from(
            t,
            rows.last().match_values,
            rows.last().sources,
            language,
        ).0
    }
}

/// Candidate order: earlier start first, longer span first at equal starts.
pub open spec fn sorts_before(a: MatchView, b: MatchView) -> bool {
    a.start_byte < b.start_byte || (a.start_byte == b.start_byte && a.end_byte > b.end_byte)
}

/// Inserts into a sorted sequence after every element it does not sort
/// before (so equal keys keep their order).
pub open spec fn insert_sorted(s: Seq<MatchView>, x: MatchView) -> Seq<MatchView>
    decreases s.len(),
{
    if s.len() == 0 {
        seq![x]
    } else if sorts_before(x, s.last()) {
        insert_sorted(s.drop_last(), x).push(s.last())
    } else {
        s.push(x)
    }
}

/// Stable sort by `sorts_before`.
pub open spec fn sort_matches(s: Seq<MatchView>) -> Seq<MatchView>
    decreases s.len(),
{
    if s.len() == 0 {
        s
    } else {
        insert_sorted(sort_matches(s.drop_last()), s.last())
    }
}

/// Where `insert_sorted` places `x`.
pub open spec fn insert_pos(s: Seq<MatchView>, x: MatchView) -> int
    decreases s.len(),
{
    if s.len() == 0 {
        0
    } else if sorts_before(x, s.last()) {
        insert_pos(s.drop_last(), x)
    } else {
        s.len() as int
    }
}

proof fn lemma_insert_sorted_pos(s: Seq<MatchView>, x: MatchView)
    ensures
        0 <= insert_pos(s, x) <= s.len(),
        insert_sorted(s, x) == s.insert(insert_pos(s, x), x),
    decreases s.len(),
{
    if s.len() == 0 {
        assert(s.insert(0, x) =~= seq![x]);
    } else if sorts_before(x, s.last()) {
        lemma_insert_sorted_pos(s.drop_last(), x);
        let p = insert_pos(s.drop_last(), x);
        assert(s.drop_last().insert(p, x).push(s.last()) =~= s.insert(p, x));
    } else {
        assert(s.push(x) =~= s.insert(s.len() as int, x));
    }
}

proof fn lemma_insert_pos_prefix(s: Seq<MatchView>, x: MatchView, p: int)
    requires
        0 <= p <= s.len(),
        forall|k: int| p <= k < s.len() ==> sorts_before(x, #[trigger] s[k]),
    ensures
        insert_pos(s, x) == insert_pos(s.take(p), x),
    decreases s.len() - p,
{
    if p < s.len() {
        assert(s.drop_last() =~= s.take(s.len() - 1));
        assert(sorts_before(x, s.last()));
        lemma_insert_pos_prefix(s.drop_last(), x, p);
        assert(s.drop_last().take(p) =~= s.take(p));
    } else {
        assert(s.take(p) =~= s);
    }
}

/// The sources of `existing` followed by those of `new` not already there.
pub open spec fn add_missing(existing: Seq<SourceView>, new: Seq<SourceView>) -> Seq<SourceView>
    decreases new.len(),
{
    if new.len() == 0 {
        existing
    } else {
        let acc = add_missing(existing, new.drop_last());
        if acc.contains(new.last()) {
            acc
        } else {
            acc.push(new.last())
        }
    }
}

/// The first kept match with the same span as `c`.
pub open spec fn same_span_from(ms: Seq<MatchView>, c: MatchView, from: int) -> Option<int>
    decreases ms.len() - from,
{
    if from < 0 || from >= ms.len() {
        None
    } else if ms[from].start_byte == c.start_byte && ms[from].end_byte == c.end_byte {
        Some(from)
    } else {
        same_span_from(ms, c, from + 1)
    }
}

/// Whether two matches overlap.
pub open spec fn overlaps(a: MatchView, b: MatchView) -> bool {
    a.start_byte < b.end_byte && a.end_byte > b.start_byte
}

/// One greedy step: a candidate with the span of a kept match adds its
/// sources to it; one overlapping a kept match is dropped; otherwise it is
/// kept.
pub open spec fn merge_step(ms: Seq<MatchView>, c: MatchView) -> Seq<MatchView> {
    match same_span_from(ms, c, 0) {
        Some(i) => ms.update(i, MatchView { sources: add_missing(ms[i].sources, c.sources), ..ms[i] }),
        None => if exists|k: int| 0 <= k < ms.len() && overlaps(c, #[trigger] ms[k]) {
            ms
        } else {
            ms.push(c)
        },
    }
}

/// The greedy merge of sorted candidates.
pub open spec fn merge_all(cs: Seq<MatchView>) -> Seq<MatchView>
    decreases cs.len(),
{
    if cs.len() == 0 {
        cs
    } else {
        merge_step(merge_all(cs.drop_last()), cs.last())
    }
}

/// The non-overlapping matches of the rows in a text: candidates sorted by
/// start (longest first), merged greedily; equal spans share sources.
pub open spec fn match_rows_spec(t: Seq<char>, rows: Seq<RowView>, language: Option<Seq<char>>) -> Seq<
    MatchView,
> {
    merge_all(sort_matches(candidates(t, rows, language)))
}

/// Whether matches are ordered by start.
pub open spec fn ordered_by_start(ms: Seq<MatchView>) -> bool {
    forall|i: int, j: int| 0 <= i < j < ms.len() ==> ms[i].start_byte <= ms[j].start_byte
}

/// Copies a match.
fn clone_match(m: &CorpusTermMatch) -> (r: CorpusTermMatch)
    ensures
        r@ == m@,
{
    CorpusTermMatch {
        start_byte: m.start_byte,
        end_byte: m.end_byte,
        text: m.text.clone(),
        sources: clone_sources(&m.sources),
    }
}

/// Adds the missing sources of `new` to `existing`.
fn add_missing_sources(existing: &mut Vec<CorpusTermSource>, new: &Vec<CorpusTermSource>)
    ensures
        sources_view(final(existing)@) == add_missing(sources_view(old(existing)@), sources_view(new@)),
{
    let ghost start = sources_view(existing@);
    let mut i: usize = 0;
    while i < new.len()
        invariant
            0 <= i <= new@.len(),
            start == sources_view(old(existing)@),
            sources_view(existing@) == add_missing(start, sources_view(new@).take(i as int)),
        decreases new@.len() - i,
    {
        assert(sources_view(new@).take(i + 1).drop_last() =~= sources_view(new@).take(i as int));
        assert(sources_view(new@).take(i + 1).last() == new@[i as int]@);
        if !sources_contain(existing, &new[i]) {
            let ghost before = existing@;
            existing.push(new[i].clone());
            assert(sources_view(existing@) =~= sources_view(before).push(new@[i as int]@));
        }
        i = i + 1;
    }
    assert(sources_view(new@).take(new@.len() as int) =~= sources_view(new@));
}

/// Stable insertion of one candidate.
fn insert_candidate(sorted: &mut Vec<CorpusTermMatch>, x: CorpusTermMatch)
    ensures
        matches_view(final(sorted)@) == insert_sorted(matches_view(old(sorted)@), x@),
{
    let ghost s = matches_view(sorted@);
    let mut pos: usize = sorted.len();
    while pos > 0 && (x.start_byte < sorted[pos - 1].start_byte || (x.start_byte == sorted[pos
        - 1].start_byte && x.end_byte > sorted[pos - 1].end_byte))
        invariant
            0 <= pos <= sorted@.len(),
            s == matches_view(sorted@),
            forall|k: int| pos <= k < s.len() ==> sorts_before(x@, #[trigger] s[k]),
        decreases pos,
    {
        assert(s[pos - 1] == sorted@[pos - 1]@);
        pos = pos - 1;
    }
    proof {
        lemma_insert_pos_prefix(s, x@, pos as int);
        lemma_insert_sorted_pos(s, x@);
        if pos > 0 {
            assert(s.take(pos as int).drop_last() =~= s.take(pos - 1));
            assert(s.take(pos as int).last() == s[pos - 1]);
            assert(!sorts_before(x@, s[pos - 1]));
        }
    }
    let ghost xv = x@;
    sorted.insert(pos, x);
    assert(matches_view(sorted@) =~= s.insert(pos as int, xv));
}

/// Merges one sorted candidate into the kept matches.
fn merge_candidate(ms: &mut Vec<CorpusTermMatch>, c: CorpusTermMatch)
    ensures
        matches_view(final(ms)@) == merge_step(matches_view(old(ms)@), c@),
{
    let ghost s = matches_view(ms@);
    let mut i: usize = 0;
    while i < ms.len()
        invariant
            0 <= i <= ms@.len(),
            s == matches_view(ms@),
            s == matches_view(old(ms)@),
            same_span_from(s, c@, 0) == same_span_from(s, c@, i as int),
        decreases ms@.len() - i,
    {
        assert(s[i as int] == ms@[i as int]@);
        if ms[i].start_byte == c.start_byte && ms[i].end_byte == c.end_byte {
            let mut updated = clone_match(&ms[i]);
            add_missing_sources(&mut updated.sources, &c.sources);
            ms.set(i, updated);
            assert(matches_view(ms@) =~= s.update(
                i as int,
                MatchView { sources: add_missing(s[i as int].sources, c@.sources), ..s[i as int] },
            ));
            return;
        }
        i = i + 1;
    }
    let mut k: usize = 0;
    while k < ms.len()
        invariant
            0 <= k <= ms@.len(),
            s == matches_view(ms@),
            s == matches_view(old(ms)@),
            same_span_from(s, c@, 0) is None,
            forall|j: int| 0 <= j < k ==> !overlaps(c@, #[trigger] s[j]),
        decreases ms@.len() - k,
    {
        assert(s[k as int] == ms@[k as int]@);
        if c.start_byte < ms[k].end_byte && c.end_byte > ms[k].start_byte {
            assert(overlaps(c@, s[k as int]));
            return;
        }
        k = k + 1;
    }
    let ghost cv = c@;
    ms.push(c);
    assert(matches_view(ms@) =~= s.push(cv));
}

/// Appends the matches of one value of a row.
fn push_value_matches(
    found: &mut Vec<CorpusTermMatch>,
    text: &str,
    t: &Vec<char>,
    bytes: &Vec<u128>,
    value: &str,
    sources: &Vec<CorpusTermSource>,
)
    requires
        t@ == text@,
        bytes@.len() == t@.len() + 1,
        forall|k: int| 0 <= k <= t@.len() ==> #[trigger] bytes@[k] == utf8_len(t@.take(k)),
    ensures
        matches_view(final(found)@) == matches_view(old(found)@) + spans_matches(
            t@,
            term_spans_spec(t@, value@),
            sources_view(sources@),
        ),
{
    let spans = term_spans(t.as_slice(), value);
    let ghost sp = spans@.map_values(|s: (usize, usize)| (s.0 as int, s.1 as int));
    let ghost start = matches_view(found@);
    let mut i: usize = 0;
    while i < spans.len()
        invariant
            0 <= i <= spans@.len(),
            t@ == text@,
            bytes@.len() == t@.len() + 1,
            forall|k: int| 0 <= k <= t@.len() ==> #[trigger] bytes@[k] == utf8_len(t@.take(k)),
            sp == spans@.map_values(|s: (usize, usize)| (s.0 as int, s.1 as int)),
            sp == term_spans_spec(t@, value@),
            start == matches_view(old(found)@),
            matches_view(found@) == start + spans_matches(t@, sp.take(i as int), sources_view(sources@)),
        decreases spans@.len() - i,
    {
        assert(sp.take(i + 1).drop_last() =~= sp.take(i as int));
        assert(sp.take(i + 1).last() == sp[i as int]);
        let (s, e) = spans[i];
        assert(sp[i as int] == (s as int, e as int));
        if s <= e && e <= t.len() {
            let bs = bytes[s];
            let be = bytes[e];
            if bs < 0x1_0000_0000 && be < 0x1_0000_0000 {
                let piece = text.substring_char(s, e);
                let m = CorpusTermMatch {
                    start_byte: bs as u32,
                    end_byte: be as u32,
                    text: piece.to_owned(),
                    sources: clone_sources(sources),
                };
                let ghost before = found@;
                let ghost mv = m@;
                found.push(m);
                assert(matches_view(found@) =~= matches_view(before).push(mv));
            }
        }
        i = i + 1;
    }
    assert(sp.take(sp.len() as int) =~= sp);
}

/// Non-overlapping matches of terminology rows in a text; with a language,
/// only that language's values are matched (see `match_rows_spec`).
pub fn match_selected_terms(text: &str, terms: &[SelectedPromptTerm], language: Option<&str>) -> (r:
    Vec<CorpusTermMatch>)
    ensures
        matches_view(r@) == match_rows_spec(
            text@,
            rv(terms@),
            match language {
                Some(l) => Some(language_base(l@)),
                None => None,
            },
        ),
        ordered_by_start(matches_view(r@)),
        pairwise_disjoint(matches_view(r@)),
        all_text_spans(text@, matches_view(r@)),
{
    let t = chars_of(text);
    let bytes = byte_offsets(t.as_slice());
    let normalized: Option<String> = match language {
        Some(l) => Some(normalized_language_code(l)),
        None => None,
    };
    let ghost lang: Option<Seq<char>> = match language {
        Some(l) => Some(language_base(l@)),
        None => None,
    };
    let mut found: Vec<CorpusTermMatch> = Vec::new();
    proof {
        assert(matches_view(found@) =~= Seq::<MatchView>::empty());
    }
    let mut i: usize = 0;
    while i < terms.len()
        invariant
            0 <= i <= terms@.len(),
            t@ == text@,
            bytes@.len() == t@.len() + 1,
            forall|k: int| 0 <= k <= t@.len() ==> #[trigger] bytes@[k] == utf8_len(t@.take(k)),
            lang == match normalized {
                Some(n) => Some(n@),
                None => None::<Seq<char>>,
            },
            matches_view(found@) == candidates(text@, rv(terms@).take(i as int), lang),
        decreases terms@.len() - i,
    {
        assert(rv(terms@).take(i + 1).drop_last() =~= rv(terms@).take(i as int));
        assert(rv(terms@).take(i + 1).last() == terms@[i as int]@);
        let term = &terms[i];
        let ghost pairs = pairs_view(term.match_values@);
        let ghost base = matches_view(found@);
        let mut seen: Vec<Vec<char>> = Vec::new();
        proof {
            assert(seen@.map_values(|k: Vec<char>| k@).to_set() =~= Set::<Seq<char>>::empty());
            assert(pairs.take(0) =~= Seq::<(Seq<char>, Seq<char>)>::empty());
            assert(base + Seq::<MatchView>::empty() =~= base);
        }
        let mut j: usize = 0;
        while j < term.match_values.len()
            invariant
                0 <= j <= term.match_values@.len(),
                pairs == pairs_view(term.match_values@),
                t@ == text@,
                bytes@.len() == t@.len() + 1,
                forall|k: int| 0 <= k <= t@.len() ==> #[trigger] bytes@[k] == utf8_len(t@.take(k)),
                lang == match normalized {
                    Some(n) => Some(n@),
                    None => None::<Seq<char>>,
                },
                matches_view(found@) == base + row_candidates_from(
                    text@,
                    pairs.take(j as int),
                    sources_view(term.sources@),
                    lang,
                ).0,
                seen@.map_values(|k: Vec<char>| k@).to_set() == row_candidates_from(
                    text@,
                    pairs.take(j as int),
                    sources_view(term.sources@),
                    lang,
                ).1,
            decreases term.match_values@.len() - j,
        {
            assert(pairs.take(j + 1).drop_last() =~= pairs.take(j as int));
            assert(pairs.take(j + 1).last() == (term.match_values@[j as int].0@, term.match_values@[j as int].1@));
            let excluded = match &normalized {
                Some(n) => !str_eq(n.as_str(), term.match_values[j].0.as_str()),
                None => false,
            };
            if !excluded {
                let key = fold_chars_of(term.match_values[j].1.as_str());
                if key.len() > 0 && !keys_contain(&seen, key.as_slice()) {
                    let ghost s0 = seen@;
                    let ghost found0 = matches_view(found@);
                    seen.push(key);
                    proof {
                        let a = s0.map_values(|k: Vec<char>| k@);
                        assert(seen@.map_values(|k: Vec<char>| k@) =~= a.push(fold(term.match_values@[j as int].1@)));
                        crate::prompt::lemma_push_to_set(a, fold(term.match_values@[j as int].1@));
                    }
                    push_value_matches(&mut found, text, &t, &bytes, term.match_values[j].1.as_str(), &term.sources);
                    proof {
                        let spans = term_spans_spec(t@, term.match_values@[j as int].1@);
                        assert(matches_view(found@) =~= base + (row_candidates_from(
                            text@,
                            pairs.take(j as int),
                            sources_view(term.sources@),
                            lang,
                        ).0 + spans_matches(t@, spans, sources_view(term.sources@))));
                    }
                }
            }
            j = j + 1;
        }
        assert(pairs.take(pairs.len() as int) =~= pairs);
        i = i + 1;
    }
    assert(rv(terms@).take(terms@.len() as int) =~= rv(terms@));
    assert(lang == match language {
        Some(l) => Some(language_base(l@)),
        None => None::<Seq<char>>,
    });
    // Stable sort.
    let ghost cands = matches_view(found@);
    let mut sorted: Vec<CorpusTermMatch> = Vec::new();
    proof {
        assert(matches_view(sorted@) =~= sort_matches(cands.take(0)));
    }
    let mut k: usize = 0;
    while k < found.len()
        invariant
            0 <= k <= found@.len(),
            cands == matches_view(found@),
            matches_view(sorted@) == sort_matches(cands.take(k as int)),
        decreases found@.len() - k,
    {
        assert(cands.take(k + 1).drop_last() =~= cands.take(k as int));
        assert(cands.take(k + 1).last() == found@[k as int]@);
        insert_candidate(&mut sorted, clone_match(&found[k]));
        k = k + 1;
    }
    assert(cands.take(cands.len() as int) =~= cands);
    // Greedy merge.
    let ghost ordered = matches_view(sorted@);
    let mut ms: Vec<CorpusTermMatch> = Vec::new();
    proof {
        assert(matches_view(ms@) =~= merge_all(ordered.take(0)));
    }
    let mut m: usize = 0;
    while m < sorted.len()
        invariant
            0 <= m <= sorted@.len(),
            ordered == matches_view(sorted@),
            matches_view(ms@) == merge_all(ordered.take(m as int)),
        decreases sorted@.len() - m,
    {
        assert(ordered.take(m + 1).drop_last() =~= ordered.take(m as int));
        assert(ordered.take(m + 1).last() == sorted@[m as int]@);
        merge_candidate(&mut ms, clone_match(&sorted[m]));
        m = m + 1;
    }
    assert(ordered.take(ordered.len() as int) =~= ordered);
    proof {
        lemma_sort_sorted(cands);
        lemma_merge_ordered(ordered);
        lemma_matches_sound(text@, rv(terms@), lang);
    }
    ms
}

/// Whether a sequence is sorted by `sorts_before` (non-strictly).
pub open spec fn sorted_by_start(s: Seq<MatchView>) -> bool {
    forall|i: int, j: int| 0 <= i < j < s.len() ==> s[i].start_byte <= s[j].start_byte
}

proof fn lemma_insert_sorted_sorted(s: Seq<MatchView>, x: MatchView)
    requires
        sorted_by_start(s),
    ensures
        sorted_by_start(insert_sorted(s, x)),
        insert_sorted(s, x).len() == s.len() + 1,
    decreases s.len(),
{
    if s.len() > 0 && sorts_before(x, s.last()) {
        let d = s.drop_last();
        assert(sorted_by_start(d));
        lemma_insert_sorted_sorted(d, x);
        lemma_insert_sorted_pos(d, x);
        let r = insert_sorted(d, x);
        let p = insert_pos(d, x);
        assert(r == d.insert(p, x));
        assert forall|i: int, j: int| 0 <= i < j < r.push(s.last()).len() implies r.push(
            s.last(),
        )[i].start_byte <= r.push(s.last())[j].start_byte by {
            if j == r.len() {
                if i < p {
                    assert(r[i] == d[i]);
                } else if i == p {
                    assert(r[i] == x);
                } else {
                    assert(r[i] == d[i - 1]);
                }
            }
        }
    } else if s.len() > 0 {
        assert forall|i: int, j: int| 0 <= i < j < s.push(x).len() implies s.push(x)[i].start_byte
            <= s.push(x)[j].start_byte by {
            if j == s.len() {
                assert(s[i].start_byte <= s.last().start_byte || i == s.len() - 1);
            }
        }
    }
}

proof fn lemma_sort_sorted(s: Seq<MatchView>)
    ensures
        sorted_by_start(sort_matches(s)),
    decreases s.len(),
{
    if s.len() > 0 {
        lemma_sort_sorted(s.drop_last());
        lemma_insert_sorted_sorted(sort_matches(s.drop_last()), s.last());
    }
}

proof fn lemma_merge_ordered(s: Seq<MatchView>)
    requires
        sorted_by_start(s),
    ensures
        ordered_by_start(merge_all(s)),
        forall|k: int| 0 <= k < merge_all(s).len() ==> exists|j: int| 0 <= j < s.len() && (#[trigger] merge_all(s)[k]).start_byte == s[j].start_byte,
    decreases s.len(),
{
    if s.len() > 0 {
        let d = s.drop_last();
        assert(sorted_by_start(d));
        lemma_merge_ordered(d);
        let ms = merge_all(d);
        let c = s.last();
        assert forall|k: int| 0 <= k < ms.len() implies (#[trigger] ms[k]).start_byte <= c.start_byte by {
            let j = choose|j: int| 0 <= j < d.len() && ms[k].start_byte == d[j].start_byte;
            assert(d[j] == s[j]);
        }
        match same_span_from(ms, c, 0) {
            Some(i) => {
                lemma_same_span_range(ms, c, 0);
                let r = merge_step(ms, c);
                assert forall|k: int| 0 <= k < r.len() implies exists|j: int| 0 <= j < s.len() && (#[trigger] r[k]).start_byte == s[j].start_byte by {
                    let j = choose|j: int| 0 <= j < d.len() && ms[k].start_byte == d[j].start_byte;
                    assert(d[j] == s[j]);
                }
            },
            None => {
                let r = merge_step(ms, c);
                assert forall|k: int| 0 <= k < r.len() implies exists|j: int| 0 <= j < s.len() && (#[trigger] r[k]).start_byte == s[j].start_byte by {
                    if k < ms.len() {
                        let j = choose|j: int| 0 <= j < d.len() && ms[k].start_byte == d[j].start_byte;
                        assert(d[j] == s[j]);
                    } else {
                        assert(r[k] == c);
                        assert(s[s.len() - 1] == c);
                    }
                }
            },
        }
    }
}

proof fn lemma_same_span_range(ms: Seq<MatchView>, c: MatchView, from: int)
    requires
        0 <= from,
    ensures
        same_span_from(ms, c, from) matches Some(i) ==> from <= i < ms.len(),
    decreases ms.len() - from,
{
    if from < ms.len() && !(ms[from].start_byte == c.start_byte && ms[from].end_byte == c.end_byte) {
        lemma_same_span_range(ms, c, from + 1);
    }
}

/// Whether a match covers whole characters of `t` and holds the text between
/// them: its byte offsets are those of a character range of `t`, and its text
/// is that range.
pub open spec fn text_span(t: Seq<char>, m: MatchView) -> bool {
    exists|s: int, e: int|
        0 <= s <= e <= t.len() && m.start_byte == utf8_len(#[trigger] t.take(s)) && m.end_byte
            == utf8_len(#[trigger] t.take(e)) && m.text == t.subrange(s, e)
}

/// Whether every match of a list covers a character range of `t`.
pub open spec fn all_text_spans(t: Seq<char>, ms: Seq<MatchView>) -> bool {
    forall|k: int| 0 <= k < ms.len() ==> text_span(t, #[trigger] ms[k])
}

/// Whether no two matches of a list overlap.
pub open spec fn pairwise_disjoint(ms: Seq<MatchView>) -> bool {
    forall|i: int, j: int| 0 <= i < j < ms.len() ==> !overlaps(#[trigger] ms[i], #[trigger] ms[j])
}

proof fn lemma_concat_spans(t: Seq<char>, a: Seq<MatchView>, b: Seq<MatchView>)
    requires
        all_text_spans(t, a),
        all_text_spans(t, b),
    ensures
        all_text_spans(t, a + b),
{
    assert forall|k: int| 0 <= k < (a + b).len() implies text_span(t, #[trigger] (a + b)[k]) by {
        if k < a.len() {
            assert((a + b)[k] == a[k]);
        } else {
            assert((a + b)[k] == b[k - a.len()]);
        }
    }
}

proof fn lemma_spans_matches_text(t: Seq<char>, spans: Seq<(int, int)>, sources: Seq<SourceView>)
    ensures
        all_text_spans(t, spans_matches(t, spans, sources)),
    decreases spans.len(),
{
    if spans.len() > 0 {
        let head = spans_matches(t, spans.drop_last(), sources);
        lemma_spans_matches_text(t, spans.drop_last(), sources);
        if let Some(m) = span_match(t, spans.last(), sources) {
            assert(text_span(t, m));
            assert forall|k: int| 0 <= k < head.push(m).len() implies text_span(
                t,
                #[trigger] head.push(m)[k],
            ) by {
                if k < head.len() {
                    assert(head.push(m)[k] == head[k]);
                }
            }
        }
    }
}

proof fn lemma_row_candidates_text(
    t: Seq<char>,
    pairs: Seq<(Seq<char>, Seq<char>)>,
    sources: Seq<SourceView>,
    language: Option<Seq<char>>,
)
    ensures
        all_text_spans(t, row_candidates_from(t, pairs, sources, language).0),
    decreases pairs.len(),
{
    if pairs.len() > 0 {
        lemma_row_candidates_text(t, pairs.drop_last(), sources, language);
        let v = fold(pairs.last().1);
        lemma_spans_matches_text(t, occurrence_spans(t, v, occurrences_from(folded_text(t), v, 0)), sources);
        lemma_concat_spans(
            t,
            row_candidates_from(t, pairs.drop_last(), sources, language).0,
            spans_matches(t, occurrence_spans(t, v, occurrences_from(folded_text(t), v, 0)), sources),
        );
    }
}

proof fn lemma_candidates_text(t: Seq<char>, rows: Seq<RowView>, language: Option<Seq<char>>)
    ensures
        all_text_spans(t, candidates(t, rows, language)),
    decreases rows.len(),
{
    if rows.len() > 0 {
        lemma_candidates_text(t, rows.drop_last(), language);
        lemma_row_candidates_text(t, rows.last().match_values, rows.last().sources, language);
        lemma_concat_spans(
            t,
            candidates(t, rows.drop_last(), language),
            row_candidates_from(t, rows.last().match_values, rows.last().sources, language).0,
        );
    }
}

proof fn lemma_sort_text(t: Seq<char>, s: Seq<MatchView>)
    requires
        all_text_spans(t, s),
    ensures
        all_text_spans(t, sort_matches(s)),
    decreases s.len(),
{
    if s.len() > 0 {
        let d = s.drop_last();
        assert(all_text_spans(t, d)) by {
            assert forall|k: int| 0 <= k < d.len() implies text_span(t, #[trigger] d[k]) by {
                assert(d[k] == s[k]);
            }
        }
        lemma_sort_text(t, d);
        let r = sort_matches(d);
        lemma_insert_sorted_pos(r, s.last());
        let p = insert_pos(r, s.last());
        assert(text_span(t, s[s.len() - 1]));
        assert forall|k: int| 0 <= k < r.insert(p, s.last()).len() implies text_span(
            t,
            #[trigger] r.insert(p, s.last())[k],
        ) by {
            if k < p {
                assert(r.insert(p, s.last())[k] == r[k]);
            } else if k > p {
                assert(r.insert(p, s.last())[k] == r[k - 1]);
            }
        }
    }
}

proof fn lemma_merge_text(t: Seq<char>, s: Seq<MatchView>)
    requires
        all_text_spans(t, s),
    ensures
        all_text_spans(t, merge_all(s)),
        pairwise_disjoint(merge_all(s)),
    decreases s.len(),
{
    if s.len() > 0 {
        let d = s.drop_last();
        assert(all_text_spans(t, d)) by {
            assert forall|k: int| 0 <= k < d.len() implies text_span(t, #[trigger] d[k]) by {
                assert(d[k] == s[k]);
            }
        }
        lemma_merge_text(t, d);
        let ms = merge_all(d);
        let c = s.last();
        assert(text_span(t, s[s.len() - 1]));
        let r = merge_step(ms, c);
        match same_span_from(ms, c, 0) {
            Some(i) => {
                lemma_same_span_range(ms, c, 0);
                assert forall|k: int| 0 <= k < r.len() implies text_span(t, #[trigger] r[k]) by {
                    if k != i {
                        assert(r[k] == ms[k]);
                    } else {
                        assert(r[k].start_byte == ms[k].start_byte && r[k].end_byte == ms[k].end_byte
                            && r[k].text == ms[k].text);
                        assert(text_span(t, ms[k]));
                    }
                }
                assert forall|a: int, b: int| 0 <= a < b < r.len() implies !overlaps(
                    #[trigger] r[a],
                    #[trigger] r[b],
                ) by {
                    assert(!overlaps(ms[a], ms[b]));
                }
            },
            None => {
                if !(exists|k: int| 0 <= k < ms.len() && overlaps(c, #[trigger] ms[k])) {
                    assert(r == ms.push(c));
                    assert forall|k: int| 0 <= k < r.len() implies text_span(t, #[trigger] r[k]) by {
                        if k < ms.len() {
                            assert(r[k] == ms[k]);
                        }
                    }
                    assert forall|a: int, b: int| 0 <= a < b < r.len() implies !overlaps(
                        #[trigger] r[a],
                        #[trigger] r[b],
                    ) by {
                        assert(r[a] == ms[a]);
                        if b < ms.len() {
                            assert(r[b] == ms[b]);
                            assert(!overlaps(ms[a], ms[b]));
                        } else {
                            assert(!overlaps(c, ms[a]));
                        }
                    }
                }
            },
        }
    }
}

/// The matches of rows in a text never overlap, and each covers a range of
/// whole characters of the text and holds exactly that range's text.
pub proof fn lemma_matches_sound(t: Seq<char>, rows: Seq<RowView>, language: Option<Seq<char>>)
    ensures
        pairwise_disjoint(match_rows_spec(t, rows, language)),
        all_text_spans(t, match_rows_spec(t, rows, language)),
{
    lemma_candidates_text(t, rows, language);
    lemma_sort_text(t, candidates(t, rows, language));
    lemma_merge_text(t, sort_matches(candidates(t, rows, language)));
}

} // verus!
