//! The immutable context of one inference stage and what it answers about a
//! source window.

use vstd::prelude::*;

use crate::correction::{
    CorrectionTermView, RecognitionCorrectionTerm, correction_candidates, correction_rows_spec,
    corrections_view, ctv, rows_corrections, select_corrections_spec,
    select_non_overlapping_corrections, selected_recognition_correction_rows, values_equal,
};
use crate::dialogue::{clone_opt, opt_view};
use crate::fold::{fold, term_spans, term_spans_spec};
use crate::language::{language_base, normalized_language_code};
use crate::matching::{match_rows_spec, match_selected_terms};
use crate::prompt::{
    HistoryTurn, HistoryView, clone_turns, hv, render_translation_prompt, sv,
    translation_prompt_text,
};
use crate::protocol::{
    CorpusPromptTerm, CorpusRecognitionCorrection, CorpusTermMatch, CorrectionView, MatchView,
    PromptTermView, matches_view,
};
use crate::rows::{RowView, SelectedPromptTerm, clone_pairs, clone_rows, clone_sources, row_strings, row_texts, rv};
use crate::selection::{SelectedCorpus, SelectedView, clone_selected, cv};
use crate::corpus::clone_strings;
use crate::text::chars_of;

verus! {

broadcast use vstd::string::group_string_axioms;

/// Context for one inference stage: the task languages, the selected
/// corpora, the rendered prompts and the rows and history they admitted.
#[derive(Debug, PartialEq, Eq)]
pub struct PromptContextSnapshot {
    languages: Vec<String>,
    corpora: Vec<SelectedCorpus>,
    asr_prompt: Option<String>,
    asr_echo_guard: Vec<String>,
    translation_prompt: Option<String>,
    translation_terms: Vec<SelectedPromptTerm>,
    translation_history: Vec<HistoryTurn>,
    activation_terms: Vec<SelectedPromptTerm>,
    recognition_context_terms: Vec<SelectedPromptTerm>,
}

/// The mathematical content of a snapshot.
pub struct SnapshotView {
    pub languages: Seq<Seq<char>>,
    pub corpora: Seq<SelectedView>,
    pub asr_prompt: Option<Seq<char>>,
    pub asr_echo_guard: Seq<Seq<char>>,
    pub translation_prompt: Option<Seq<char>>,
    pub translation_terms: Seq<RowView>,
    pub translation_history: Seq<HistoryView>,
    pub activation_terms: Seq<RowView>,
    pub recognition_context_terms: Seq<RowView>,
}

impl View for PromptContextSnapshot {
    type V = SnapshotView;

    closed spec fn view(&self) -> SnapshotView {
        SnapshotView {
            languages: sv(self.languages@),
            corpora: cv(self.corpora@),
            asr_prompt: opt_view(self.asr_prompt),
            asr_echo_guard: sv(self.asr_echo_guard@),
            translation_prompt: opt_view(self.translation_prompt),
            translation_terms: rv(self.translation_terms@),
            translation_history: hv(self.translation_history@),
            activation_terms: rv(self.activation_terms@),
            recognition_context_terms: rv(self.recognition_context_terms@),
        }
    }
}

/// The snapshot of a disabled or language-less observation.
pub open spec fn empty_snapshot() -> SnapshotView {
    SnapshotView {
        languages: Seq::empty(),
        corpora: Seq::empty(),
        asr_prompt: None,
        asr_echo_guard: Seq::empty(),
        translation_prompt: None,
        translation_terms: Seq::empty(),
        translation_history: Seq::empty(),
        activation_terms: Seq::empty(),
        recognition_context_terms: Seq::empty(),
    }
}

/// Whether some value of `row` occurs in `t`.
pub open spec fn row_occurs(t: Seq<char>, row: RowView) -> bool {
    match_rows_spec(t, seq![row], None).len() > 0
}

/// Whether a correction row's canonical values share a value (by folded
/// form) with a terminology row.
pub open spec fn shares_value(c: CorrectionTermView, row: RowView) -> bool {
    exists|i: int, j: int|
        #![trigger c.canonical[i], row.values[j]]
        0 <= i < c.canonical.len() && 0 <= j < row.values.len() && fold(c.canonical[i].1) == fold(
            row.values[j].1,
        )
}

/// Whether an alias value of a correction row occurs in `t`.
pub open spec fn alias_occurs(t: Seq<char>, c: CorrectionTermView) -> bool {
    exists|k: int| 0 <= k < c.aliases.len() && term_spans_spec(t, #[trigger] c.aliases[k].1).len() > 0
}

/// Whether a terminology row is named in `t` by one of its correction aliases.
pub open spec fn alias_names_row(t: Seq<char>, corrections: Seq<CorrectionTermView>, row: RowView) -> bool {
    exists|k: int|
        0 <= k < corrections.len() && shares_value(#[trigger] corrections[k], row) && alias_occurs(
            t,
            corrections[k],
        )
}

/// The rows relevant to a source window: those whose values occur in it,
/// or that one of the corrections' aliases there names.
pub open spec fn relevant_rows(t: Seq<char>, rows: Seq<RowView>, corrections: Seq<CorrectionTermView>) -> Seq<
    RowView,
>
    decreases rows.len(),
{
    if rows.len() == 0 {
        Seq::empty()
    } else if row_occurs(t, rows.last()) || alias_names_row(t, corrections, rows.last()) {
        relevant_rows(t, rows.drop_last(), corrections).push(rows.last())
    } else {
        relevant_rows(t, rows.drop_last(), corrections)
    }
}

proof fn lemma_relevant_rows_grow(t: Seq<char>, rows: Seq<RowView>, cs: Seq<CorrectionTermView>, x: RowView)
    requires
        rows.len() > 0,
        relevant_rows(t, rows.drop_last(), cs).contains(x),
    ensures
        relevant_rows(t, rows, cs).contains(x),
{
    let h = relevant_rows(t, rows.drop_last(), cs);
    let q = choose|q: int| 0 <= q < h.len() && h[q] == x;
    if row_occurs(t, rows.last()) || alias_names_row(t, cs, rows.last()) {
        assert(h.push(rows.last())[q] == x);
    }
}

/// A terminology row whose value folds like a canonical value of a
/// correction row, one of whose aliases occurs in the source window, is
/// relevant to that window.
pub proof fn lemma_alias_named_row_is_relevant(
    t: Seq<char>,
    rows: Seq<RowView>,
    cs: Seq<CorrectionTermView>,
    k: int,
    c: int,
    i: int,
    j: int,
    a: int,
)
    requires
        0 <= k < rows.len(),
        0 <= c < cs.len(),
        0 <= i < cs[c].canonical.len(),
        0 <= j < rows[k].values.len(),
        fold(cs[c].canonical[i].1) == fold(rows[k].values[j].1),
        0 <= a < cs[c].aliases.len(),
        term_spans_spec(t, cs[c].aliases[a].1).len() > 0,
    ensures
        relevant_rows(t, rows, cs).contains(rows[k]),
    decreases rows.len(),
{
    if k == rows.len() - 1 {
        let row = rows.last();
        assert(shares_value(cs[c], row)) by {
            assert(row.values[j] == rows[k].values[j]);
        }
        assert(alias_occurs(t, cs[c]));
        assert(alias_names_row(t, cs, row));
        let h = relevant_rows(t, rows.drop_last(), cs);
        assert(h.push(row)[h.len() as int] == row);
    } else {
        assert(rows.drop_last()[k] == rows[k]);
        lemma_alias_named_row_is_relevant(t, rows.drop_last(), cs, k, c, i, j, a);
        lemma_relevant_rows_grow(t, rows, cs, rows[k]);
    }
}

/// A row named by an alias has a value folding like a canonical value of a
/// correction row one of whose aliases occurs in the window.
pub open spec fn named_by_occurring_alias(t: Seq<char>, cs: Seq<CorrectionTermView>, x: RowView) -> bool {
    exists|c: int, i: int, j: int, a: int|
        #![trigger cs[c].canonical[i], x.values[j], cs[c].aliases[a]]
        0 <= c < cs.len() && 0 <= i < cs[c].canonical.len() && 0 <= j < x.values.len() && fold(
            cs[c].canonical[i].1,
        ) == fold(x.values[j].1) && 0 <= a < cs[c].aliases.len() && term_spans_spec(t, cs[c].aliases[a].1).len()
            > 0
}

proof fn lemma_alias_names_row_iff(t: Seq<char>, cs: Seq<CorrectionTermView>, x: RowView)
    ensures
        alias_names_row(t, cs, x) <==> named_by_occurring_alias(t, cs, x),
{
    if alias_names_row(t, cs, x) {
        let c = choose|c: int| 0 <= c < cs.len() && shares_value(#[trigger] cs[c], x) && alias_occurs(t, cs[c]);
        let (i, j) = choose|i: int, j: int|
            #![trigger cs[c].canonical[i], x.values[j]]
            0 <= i < cs[c].canonical.len() && 0 <= j < x.values.len() && fold(cs[c].canonical[i].1) == fold(
                x.values[j].1,
            );
        let a = choose|a: int| 0 <= a < cs[c].aliases.len() && term_spans_spec(t, #[trigger] cs[c].aliases[a].1).len() > 0;
    }
    if named_by_occurring_alias(t, cs, x) {
        let (c, i, j, a) = choose|c: int, i: int, j: int, a: int|
            #![trigger cs[c].canonical[i], x.values[j], cs[c].aliases[a]]
            0 <= c < cs.len() && 0 <= i < cs[c].canonical.len() && 0 <= j < x.values.len() && fold(
                cs[c].canonical[i].1,
            ) == fold(x.values[j].1) && 0 <= a < cs[c].aliases.len() && term_spans_spec(t, cs[c].aliases[a].1).len()
                > 0;
        assert(shares_value(cs[c], x));
        assert(alias_occurs(t, cs[c]));
    }
}

/// The relevant rows are the rows, in their order, that have a value
/// occurring in the window or that a correction alias occurring there names.
pub proof fn lemma_relevant_rows_filter(t: Seq<char>, rows: Seq<RowView>, cs: Seq<CorrectionTermView>)
    ensures
        relevant_rows(t, rows, cs) == rows.filter(
            |x: RowView| match_rows_spec(t, seq![x], None).len() > 0 || named_by_occurring_alias(t, cs, x),
        ),
    decreases rows.len(),
{
    reveal(Seq::filter);
    let pred = |x: RowView| match_rows_spec(t, seq![x], None).len() > 0 || named_by_occurring_alias(t, cs, x);
    if rows.len() > 0 {
        lemma_relevant_rows_filter(t, rows.drop_last(), cs);
        lemma_alias_names_row_iff(t, cs, rows.last());
        assert(rows.filter(pred) == (if pred(rows.last()) {
            rows.drop_last().filter(pred).push(rows.last())
        } else {
            rows.drop_last().filter(pred)
        }));
        assert(pred(rows.last()) == (row_occurs(t, rows.last()) || alias_names_row(t, cs, rows.last())));
    } else {
        assert(rows.filter(pred) == rows);
    }
}

/// The admitted terminology relevant to a source window.
pub open spec fn relevant_terms_spec(s: SnapshotView, t: Seq<char>) -> Seq<RowView> {
    relevant_rows(t, s.translation_terms, correction_rows_spec(s.corpora, s.languages))
}

/// The per-segment translation prompt: the relevant rows and the admitted
/// history, or nothing when both are empty.
pub open spec fn translation_prompt_for_spec(s: SnapshotView, t: Seq<char>) -> Option<Seq<char>> {
    let rows = relevant_terms_spec(s, t);
    if rows.len() > 0 || s.translation_history.len() > 0 {
        Some(translation_prompt_text(s.languages, row_texts(rows), s.translation_history))
    } else {
        None
    }
}

/// The prompt terms of rows.
pub open spec fn prompt_terms(rows: Seq<RowView>) -> Seq<PromptTermView> {
    rows.map_values(|r: RowView| PromptTermView { values: r.values, sources: r.sources })
}

/// Rows that occur in the source (in the source language) but not in the
/// translation (in the target language).
pub open spec fn missing_rows(
    source: Seq<char>,
    translated: Seq<char>,
    rows: Seq<RowView>,
    source_language: Seq<char>,
    target_language: Seq<char>,
) -> Seq<RowView>
    decreases rows.len(),
{
    if rows.len() == 0 {
        Seq::empty()
    } else {
        let head = missing_rows(source, translated, rows.drop_last(), source_language, target_language);
        let row = rows.last();
        if match_rows_spec(source, seq![row], Some(language_base(source_language))).len() > 0
            && match_rows_spec(translated, seq![row], Some(language_base(target_language))).len()
            == 0 {
            head.push(row)
        } else {
            head
        }
    }
}

/// The admitted rows present in the source whose target value is absent
/// from the translation; none when a language code is empty.
pub open spec fn missing_terms_spec(
    s: SnapshotView,
    source: Seq<char>,
    translated: Seq<char>,
    source_language: Seq<char>,
    target_language: Seq<char>,
) -> Seq<RowView> {
    let sl = language_base(source_language);
    let tl = language_base(target_language);
    if sl.len() == 0 || tl.len() == 0 {
        Seq::empty()
    } else {
        missing_rows(source, translated, s.translation_terms, sl, tl)
    }
}

/// The recognition corrections of a source window.
pub open spec fn corrections_spec(s: SnapshotView, t: Seq<char>) -> Seq<CorrectionView> {
    select_corrections_spec(rows_corrections(t, correction_rows_spec(s.corpora, s.languages)))
}

/// Matches of one row in a text, with an optional language filter.
pub fn row_matches(text: &str, row: &SelectedPromptTerm, language: Option<&str>) -> (r: Vec<
    CorpusTermMatch,
>)
    ensures
        matches_view(r@) == match_rows_spec(
            text@,
            seq![row@],
            match language {
                Some(l) => Some(language_base(l@)),
                None => None,
            },
        ),
{
    let mut one: Vec<SelectedPromptTerm> = Vec::new();
    one.push(row.clone());
    assert(rv(one@) =~= seq![row@]);
    match_selected_terms(text, one.as_slice(), language)
}

fn shares_value_exec(c: &RecognitionCorrectionTerm, row: &SelectedPromptTerm) -> (r: bool)
    ensures
        r == shares_value(c@, row@),
{
    let ghost cc = c@.canonical;
    let ghost vs = row@.values;
    let mut i: usize = 0;
    while i < c.canonical.len()
        invariant
            0 <= i <= c.canonical@.len(),
            cc == c@.canonical,
            vs == row@.values,
            forall|a: int, b: int|
                #![trigger cc[a], vs[b]]
                0 <= a < i && 0 <= b < vs.len() ==> fold(cc[a].1) != fold(vs[b].1),
        decreases c.canonical@.len() - i,
    {
        assert(cc[i as int] == (c.canonical@[i as int].0@, c.canonical@[i as int].1@));
        let mut j: usize = 0;
        while j < row.values.len()
            invariant
                0 <= i < c.canonical@.len(),
                0 <= j <= row.values@.len(),
                cc == c@.canonical,
                vs == row@.values,
                cc[i as int] == (c.canonical@[i as int].0@, c.canonical@[i as int].1@),
                forall|b: int| #![trigger vs[b]] 0 <= b < j ==> fold(cc[i as int].1) != fold(vs[b].1),
            decreases row.values@.len() - j,
        {
            assert(vs[j as int] == (row.values@[j as int].0@, row.values@[j as int].1@));
            if values_equal(c.canonical[i].1.as_str(), row.values[j].1.as_str()) {
                assert(fold(cc[i as int].1) == fold(vs[j as int].1));
                return true;
            }
            j = j + 1;
        }
        i = i + 1;
    }
    false
}

fn alias_occurs_exec(t: &Vec<char>, c: &RecognitionCorrectionTerm) -> (r: bool)
    ensures
        r == alias_occurs(t@, c@),
{
    let ghost av = c@.aliases;
    let mut k: usize = 0;
    while k < c.aliases.len()
        invariant
            0 <= k <= c.aliases@.len(),
            av == c@.aliases,
            forall|q: int| 0 <= q < k ==> term_spans_spec(t@, #[trigger] av[q].1).len() == 0,
        decreases c.aliases@.len() - k,
    {
        assert(av[k as int] == (c.aliases@[k as int].0@, c.aliases@[k as int].1@));
        let spans = term_spans(t.as_slice(), c.aliases[k].1.as_str());
        if spans.len() > 0 {
            assert(term_spans_spec(t@, av[k as int].1).len() > 0);
            return true;
        }
        k = k + 1;
    }
    false
}

fn alias_names_row_exec(t: &Vec<char>, corrections: &Vec<RecognitionCorrectionTerm>, row: &SelectedPromptTerm) -> (r:
    bool)
    ensures
        r == alias_names_row(t@, ctv(corrections@), row@),
{
    let ghost cs = ctv(corrections@);
    let mut k: usize = 0;
    while k < corrections.len()
        invariant
            0 <= k <= corrections@.len(),
            cs == ctv(corrections@),
            forall|q: int| 0 <= q < k ==> !(shares_value(#[trigger] cs[q], row@) && alias_occurs(t@, cs[q])),
        decreases corrections@.len() - k,
    {
        assert(cs[k as int] == corrections@[k as int]@);
        if shares_value_exec(&corrections[k], row) && alias_occurs_exec(t, &corrections[k]) {
            return true;
        }
        k = k + 1;
    }
    false
}

impl PromptContextSnapshot {
    /// Assembles a snapshot from its parts.
    pub(crate) fn from_parts(
        languages: Vec<String>,
        corpora: Vec<SelectedCorpus>,
        asr_prompt: Option<String>,
        asr_echo_guard: Vec<String>,
        translation_prompt: Option<String>,
        translation_terms: Vec<SelectedPromptTerm>,
        translation_history: Vec<HistoryTurn>,
        activation_terms: Vec<SelectedPromptTerm>,
        recognition_context_terms: Vec<SelectedPromptTerm>,
    ) -> (r: Self)
        ensures
            r@ == (SnapshotView {
                languages: sv(languages@),
                corpora: cv(corpora@),
                asr_prompt: opt_view(asr_prompt),
                asr_echo_guard: sv(asr_echo_guard@),
                translation_prompt: opt_view(translation_prompt),
                translation_terms: rv(translation_terms@),
                translation_history: hv(translation_history@),
                activation_terms: rv(activation_terms@),
                recognition_context_terms: rv(recognition_context_terms@),
            }),
    {
        PromptContextSnapshot {
            languages,
            corpora,
            asr_prompt,
            asr_echo_guard,
            translation_prompt,
            translation_terms,
            translation_history,
            activation_terms,
            recognition_context_terms,
        }
    }

    /// The snapshot with nothing selected.
    pub fn empty() -> (r: Self)
        ensures
            r@ == empty_snapshot(),
    {
        let r = PromptContextSnapshot {
            languages: Vec::new(),
            corpora: Vec::new(),
            asr_prompt: None,
            asr_echo_guard: Vec::new(),
            translation_prompt: None,
            translation_terms: Vec::new(),
            translation_history: Vec::new(),
            activation_terms: Vec::new(),
            recognition_context_terms: Vec::new(),
        };
        assert(r@.languages =~= Seq::<Seq<char>>::empty());
        assert(r@.corpora =~= Seq::<SelectedView>::empty());
        assert(r@.asr_echo_guard =~= Seq::<Seq<char>>::empty());
        assert(r@.translation_terms =~= Seq::<RowView>::empty());
        assert(r@.translation_history =~= Seq::<HistoryView>::empty());
        assert(r@.activation_terms =~= Seq::<RowView>::empty());
        assert(r@.recognition_context_terms =~= Seq::<RowView>::empty());
        r
    }

    /// The ASR hotword prompt.
    pub fn asr_prompt(&self) -> (r: Option<String>)
        ensures
            opt_view(r) == self@.asr_prompt,
    {
        clone_opt(&self.asr_prompt)
    }

    /// Recent confirmed source and translated sentences, kept only to detect
    /// an ASR result that echoes context; they never reach the ASR prompt.
    pub fn asr_echo_guard(&self) -> (r: &[String])
        ensures
            sv(r@) == self@.asr_echo_guard,
    {
        self.asr_echo_guard.as_slice()
    }

    /// The general translation prompt.
    pub fn translation_prompt(&self) -> (r: Option<String>)
        ensures
            opt_view(r) == self@.translation_prompt,
    {
        clone_opt(&self.translation_prompt)
    }

    /// The admitted rows relevant to a source window.
    fn relevant_translation_terms(&self, source_text: &str) -> (r: Vec<SelectedPromptTerm>)
        ensures
            rv(r@) == relevant_terms_spec(self@, source_text@),
    {
        let corrections = selected_recognition_correction_rows(&self.corpora, self.languages.as_slice());
        let t = chars_of(source_text);
        let ghost rows = rv(self.translation_terms@);
        let ghost cs = ctv(corrections@);
        let mut r: Vec<SelectedPromptTerm> = Vec::new();
        let mut i: usize = 0;
        while i < self.translation_terms.len()
            invariant
                0 <= i <= self.translation_terms@.len(),
                rows == rv(self.translation_terms@),
                cs == ctv(corrections@),
                cs == correction_rows_spec(self@.corpora, self@.languages),
                t@ == source_text@,
                rv(r@) == relevant_rows(source_text@, rows.take(i as int), cs),
            decreases self.translation_terms@.len() - i,
        {
            assert(rows.take(i + 1).drop_last() =~= rows.take(i as int));
            assert(rows.take(i + 1).last() == self.translation_terms@[i as int]@);
            let term = &self.translation_terms[i];
            let occurs = row_matches(source_text, term, None).len() > 0;
            if occurs || alias_names_row_exec(&t, &corrections, term) {
                let ghost before = r@;
                r.push(term.clone());
                assert(rv(r@) =~= rv(before).push(term@));
            }
            i = i + 1;
        }
        assert(rows.take(rows.len() as int) =~= rows);
        r
    }

    /// A per-segment prompt holding only the terminology relevant to this
    /// source window, plus the admitted history.
    pub fn translation_prompt_for(&self, source_text: &str) -> (r: Option<String>)
        ensures
            opt_view(r) == translation_prompt_for_spec(self@, source_text@),
    {
        let relevant = self.relevant_translation_terms(source_text);
        let rows = row_strings(relevant.as_slice());
        if rows.len() == 0 && self.translation_history.len() == 0 {
            return None;
        }
        Some(render_translation_prompt(
            self.languages.as_slice(),
            rows.as_slice(),
            self.translation_history.as_slice(),
        ))
    }

    /// The admitted terminology relevant to this source window, as prompt
    /// terms.
    pub fn translation_prompt_terms_for(&self, source_text: &str) -> (r: Vec<CorpusPromptTerm>)
        ensures
            r@.map_values(|p: CorpusPromptTerm| p@) == prompt_terms(
                relevant_terms_spec(self@, source_text@),
            ),
    {
        let relevant = self.relevant_translation_terms(source_text);
        let ghost rows = rv(relevant@);
        let mut r: Vec<CorpusPromptTerm> = Vec::new();
        let mut i: usize = 0;
        while i < relevant.len()
            invariant
                0 <= i <= relevant@.len(),
                rows == rv(relevant@),
                r@.map_values(|p: CorpusPromptTerm| p@) == prompt_terms(rows.take(i as int)),
            decreases relevant@.len() - i,
        {
            let term = CorpusPromptTerm {
                values: clone_pairs(&relevant[i].values),
                sources: clone_sources(&relevant[i].sources),
            };
            let ghost before = r@;
            r.push(term);
            assert(r@.map_values(|p: CorpusPromptTerm| p@) =~= before.map_values(
                |p: CorpusPromptTerm| p@,
            ).push(PromptTermView { values: rows[i as int].values, sources: rows[i as int].sources }));
            assert(prompt_terms(rows.take(i + 1)) =~= prompt_terms(rows.take(i as int)).push(
                PromptTermView { values: rows[i as int].values, sources: rows[i as int].sources },
            ));
            i = i + 1;
        }
        assert(rows.take(rows.len() as int) =~= rows);
        r
    }

    /// Matches, in the translated text and the target language, of the
    /// terminology admitted for this source window.
    pub fn translation_term_matches(
        &self,
        source_text: &str,
        translated_text: &str,
        target_language: &str,
    ) -> (r: Vec<CorpusTermMatch>)
        ensures
            matches_view(r@) == match_rows_spec(
                translated_text@,
                relevant_terms_spec(self@, source_text@),
                Some(language_base(target_language@)),
            ),
    {
        let relevant = self.relevant_translation_terms(source_text);
        match_selected_terms(translated_text, relevant.as_slice(), Some(target_language))
    }

    /// Trigger spans in the recognized text that newly activated a corpus.
    pub fn activation_matches(&self, source_text: &str) -> (r: Vec<CorpusTermMatch>)
        ensures
            matches_view(r@) == match_rows_spec(source_text@, self@.activation_terms, None),
    {
        match_selected_terms(source_text, self.activation_terms.as_slice(), None)
    }

    /// Source-side terminology of the selected corpora found in the text.
    pub fn recognition_context_matches(&self, source_text: &str) -> (r: Vec<CorpusTermMatch>)
        ensures
            matches_view(r@) == match_rows_spec(source_text@, self@.recognition_context_terms, None),
    {
        match_selected_terms(source_text, self.recognition_context_terms.as_slice(), None)
    }

    /// Corpus-owned recognition corrections found in the text, as data.
    pub fn recognition_corrections(&self, source_text: &str) -> (r: Vec<CorpusRecognitionCorrection>)
        ensures
            corrections_view(r@) == corrections_spec(self@, source_text@),
    {
        let rows = selected_recognition_correction_rows(&self.corpora, self.languages.as_slice());
        let candidates = correction_candidates(source_text, &rows);
        select_non_overlapping_corrections(candidates)
    }

    /// Admitted rows present in the source but absent from the translation.
    fn missing_translation_terms(
        &self,
        source_text: &str,
        translated_text: &str,
        source_language: &str,
        target_language: &str,
    ) -> (r: Vec<SelectedPromptTerm>)
        ensures
            rv(r@) == missing_terms_spec(
                self@,
                source_text@,
                translated_text@,
                source_language@,
                target_language@,
            ),
    {
        let sl = normalized_language_code(source_language);
        let tl = normalized_language_code(target_language);
        let mut r: Vec<SelectedPromptTerm> = Vec::new();
        if sl.as_str().unicode_len() == 0 || tl.as_str().unicode_len() == 0 {
            assert(rv(r@) =~= Seq::<RowView>::empty());
            return r;
        }
        let ghost rows = rv(self.translation_terms@);
        let mut i: usize = 0;
        while i < self.translation_terms.len()
            invariant
                0 <= i <= self.translation_terms@.len(),
                rows == rv(self.translation_terms@),
                sl@ == language_base(source_language@),
                tl@ == language_base(target_language@),
                rv(r@) == missing_rows(source_text@, translated_text@, rows.take(i as int), sl@, tl@),
            decreases self.translation_terms@.len() - i,
        {
            assert(rows.take(i + 1).drop_last() =~= rows.take(i as int));
            assert(rows.take(i + 1).last() == self.translation_terms@[i as int]@);
            let term = &self.translation_terms[i];
            let in_source = row_matches(source_text, term, Some(sl.as_str())).len() > 0;
            if in_source && row_matches(translated_text, term, Some(tl.as_str())).len() == 0 {
                let ghost before = r@;
                r.push(term.clone());
                assert(rv(r@) =~= rv(before).push(term@));
            }
            i = i + 1;
        }
        assert(rows.take(rows.len() as int) =~= rows);
        r
    }

    /// A compact second-pass prompt of the admitted rows whose target value
    /// is missing from the first translation, with their count; nothing
    /// when none is missing.
    pub fn terminology_retry_prompt(
        &self,
        source_text: &str,
        translated_text: &str,
        source_language: &str,
        target_language: &str,
    ) -> (r: Option<(String, usize)>)
        ensures
            ({
                let missing = missing_terms_spec(
                    self@,
                    source_text@,
                    translated_text@,
                    source_language@,
                    target_language@,
                );
                match r {
                    Some((prompt, count)) => missing.len() > 0 && prompt@ == translation_prompt_text(
                        self@.languages,
                        row_texts(missing),
                        Seq::empty(),
                    ) && count == missing.len(),
                    None => missing.len() == 0,
                }
            }),
    {
        let missing = self.missing_translation_terms(
            source_text,
            translated_text,
            source_language,
            target_language,
        );
        if missing.len() == 0 {
            return None;
        }
        let rows = row_strings(missing.as_slice());
        let no_turns: Vec<HistoryTurn> = Vec::new();
        let prompt = render_translation_prompt(self.languages.as_slice(), rows.as_slice(), no_turns.as_slice());
        assert(hv(no_turns@) =~= Seq::<HistoryView>::empty());
        Some((prompt, rows.len()))
    }

    /// How many admitted rows are present in the source but absent from the
    /// translation.
    pub fn missing_translation_term_count(
        &self,
        source_text: &str,
        translated_text: &str,
        source_language: &str,
        target_language: &str,
    ) -> (r: usize)
        ensures
            r == missing_terms_spec(
                self@,
                source_text@,
                translated_text@,
                source_language@,
                target_language@,
            ).len(),
    {
        self.missing_translation_terms(source_text, translated_text, source_language, target_language).len()
    }
}

impl Default for PromptContextSnapshot {
    fn default() -> (r: Self)
        ensures
            r@ == empty_snapshot(),
    {
        PromptContextSnapshot::empty()
    }
}

} // verus!
