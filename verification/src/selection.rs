//! Rows contributed by the ranked selected corpora.

use vstd::prelude::*;

use crate::corpus::{CorpusDefinition, CorpusTerm, DefinitionView, clone_terms, terms_view};
use crate::prompt::sv;
use crate::rows::{RowView, SelectedPromptTerm, clone_rows, rv};
use crate::select::{
    insert_row, insert_rows, insert_selected_term, is_multilingual_mapping, multilingual_spec,
    terms_overlap, terms_overlap_spec,
};

verus! {

/// A corpus selected for one observation, with the evidence that selected it.
#[derive(Debug, PartialEq, Eq)]
pub struct SelectedCorpus {
    pub definition: CorpusDefinition,
    pub matched_canonical_triggers: Vec<CorpusTerm>,
    pub current_triggers: Vec<CorpusTerm>,
    pub current_terms: Vec<CorpusTerm>,
    pub activation_triggers: Vec<CorpusTerm>,
    pub currently_eligible: bool,
}

/// The mathematical content of a selected corpus.
pub struct SelectedView {
    pub definition: DefinitionView,
    pub matched_canonical_triggers: Seq<Seq<Seq<char>>>,
    pub current_triggers: Seq<Seq<Seq<char>>>,
    pub current_terms: Seq<Seq<Seq<char>>>,
    pub activation_triggers: Seq<Seq<Seq<char>>>,
    pub currently_eligible: bool,
}

impl View for SelectedCorpus {
    type V = SelectedView;

    open spec fn view(&self) -> SelectedView {
        SelectedView {
            definition: self.definition@,
            matched_canonical_triggers: terms_view(self.matched_canonical_triggers@),
            current_triggers: terms_view(self.current_triggers@),
            current_terms: terms_view(self.current_terms@),
            activation_triggers: terms_view(self.activation_triggers@),
            currently_eligible: self.currently_eligible,
        }
    }
}

impl Clone for SelectedCorpus {
    fn clone(&self) -> (r: Self)
        ensures
            r@ == self@,
    {
        SelectedCorpus {
            definition: self.definition.clone(),
            matched_canonical_triggers: clone_terms(&self.matched_canonical_triggers),
            current_triggers: clone_terms(&self.current_triggers),
            current_terms: clone_terms(&self.current_terms),
            activation_triggers: clone_terms(&self.activation_triggers),
            currently_eligible: self.currently_eligible,
        }
    }
}

/// The views of a list of selected corpora.
pub open spec fn cv(v: Seq<SelectedCorpus>) -> Seq<SelectedView> {
    v.map_values(|c: SelectedCorpus| c@)
}

/// Copies a list of selected corpora.
pub fn clone_selected(v: &Vec<SelectedCorpus>) -> (r: Vec<SelectedCorpus>)
    ensures
        cv(r@) == cv(v@),
{
    let mut r: Vec<SelectedCorpus> = Vec::new();
    let mut i: usize = 0;
    while i < v.len()
        invariant
            0 <= i <= v@.len(),
            cv(r@) == cv(v@.take(i as int)),
        decreases v@.len() - i,
    {
        let ghost before = r@;
        r.push(v[i].clone());
        assert(cv(r@) =~= cv(before).push(v@[i as int]@));
        assert(cv(v@.take(i + 1)) =~= cv(v@.take(i as int)).push(v@[i as int]@));
        i = i + 1;
    }
    assert(v@.take(v@.len() as int) =~= v@);
    r
}

/// `(corpus, term)` pairs for every term of a list, in order.
pub open spec fn list_pairs(d: DefinitionView, ts: Seq<Seq<Seq<char>>>) -> Seq<
    (DefinitionView, Seq<Seq<char>>),
> {
    ts.map_values(|t: Seq<Seq<char>>| (d, t))
}

/// The terms of `terms` that overlap trigger `t`, paired with their corpus.
pub open spec fn overlap_pairs(d: DefinitionView, terms: Seq<Seq<Seq<char>>>, t: Seq<Seq<char>>) -> Seq<
    (DefinitionView, Seq<Seq<char>>),
>
    decreases terms.len(),
{
    if terms.len() == 0 {
        Seq::empty()
    } else if terms_overlap_spec(t, terms.last()) {
        overlap_pairs(d, terms.drop_last(), t).push((d, terms.last()))
    } else {
        overlap_pairs(d, terms.drop_last(), t)
    }
}

/// Whether any of `terms` overlaps `t`.
pub open spec fn any_overlap(terms: Seq<Seq<Seq<char>>>, t: Seq<Seq<char>>) -> bool {
    exists|k: int| 0 <= k < terms.len() && terms_overlap_spec(t, #[trigger] terms[k])
}

/// What a matched canonical trigger contributes: the authoritative terms it
/// overlaps, or, when it overlaps none, the trigger itself if it maps two
/// distinct task-language values.
pub open spec fn trigger_pairs(d: DefinitionView, t: Seq<Seq<char>>, languages: Seq<Seq<char>>) -> Seq<
    (DefinitionView, Seq<Seq<char>>),
> {
    overlap_pairs(d, d.terms, t) + if !any_overlap(d.terms, t) && multilingual_spec(t, languages) {
        seq![(d, t)]
    } else {
        Seq::empty()
    }
}

/// Contributions of a list of matched canonical triggers of one corpus.
pub open spec fn triggers_pairs(
    d: DefinitionView,
    triggers: Seq<Seq<Seq<char>>>,
    languages: Seq<Seq<char>>,
) -> Seq<(DefinitionView, Seq<Seq<char>>)>
    decreases triggers.len(),
{
    if triggers.len() == 0 {
        Seq::empty()
    } else {
        triggers_pairs(d, triggers.drop_last(), languages) + trigger_pairs(
            d,
            triggers.last(),
            languages,
        )
    }
}

/// Contributions of the matched canonical triggers of every corpus.
pub open spec fn canonical_pairs(cs: Seq<SelectedView>, languages: Seq<Seq<char>>) -> Seq<
    (DefinitionView, Seq<Seq<char>>),
>
    decreases cs.len(),
{
    if cs.len() == 0 {
        Seq::empty()
    } else {
        canonical_pairs(cs.drop_last(), languages) + triggers_pairs(
            cs.last().definition,
            cs.last().matched_canonical_triggers,
            languages,
        )
    }
}

/// The term at column `idx` of every corpus that has one, in rank order.
pub open spec fn column_pairs(cs: Seq<SelectedView>, idx: int) -> Seq<(DefinitionView, Seq<Seq<char>>)>
    decreases cs.len(),
{
    if cs.len() == 0 {
        Seq::empty()
    } else if idx < cs.last().definition.terms.len() {
        column_pairs(cs.drop_last(), idx).push((cs.last().definition, cs.last().definition.terms[idx]))
    } else {
        column_pairs(cs.drop_last(), idx)
    }
}

/// Terms interleaved across corpora: first terms of every corpus, then
/// second terms, and so on, for the first `k` positions.
pub open spec fn columns_pairs(cs: Seq<SelectedView>, k: int) -> Seq<(DefinitionView, Seq<Seq<char>>)>
    decreases k,
{
    if k <= 0 {
        Seq::empty()
    } else {
        columns_pairs(cs, k - 1) + column_pairs(cs, k - 1)
    }
}

/// The largest number of terms of one corpus.
pub open spec fn max_terms(cs: Seq<SelectedView>) -> nat
    decreases cs.len(),
{
    if cs.len() == 0 {
        0
    } else {
        let m = max_terms(cs.drop_last());
        if cs.last().definition.terms.len() > m {
            cs.last().definition.terms.len()
        } else {
            m
        }
    }
}

/// The terminology rows of the selected corpora: canonical-trigger
/// contributions first, then all terms interleaved across ranked corpora so
/// that one large corpus cannot crowd out the others.
pub open spec fn term_rows_spec(cs: Seq<SelectedView>, languages: Seq<Seq<char>>) -> Seq<RowView> {
    insert_rows(
        Seq::empty(),
        canonical_pairs(cs, languages) + columns_pairs(cs, max_terms(cs) as int),
        languages,
    )
}

proof fn lemma_insert_rows_push(
    rows: Seq<RowView>,
    pairs: Seq<(DefinitionView, Seq<Seq<char>>)>,
    p: (DefinitionView, Seq<Seq<char>>),
    languages: Seq<Seq<char>>,
)
    ensures
        insert_rows(rows, pairs.push(p), languages) == insert_row(
            insert_rows(rows, pairs, languages),
            p.0,
            p.1,
            languages,
        ),
{
    assert(pairs.push(p).drop_last() =~= pairs);
}

/// Inserts one pair and records it.
fn insert_pair(
    rows: &mut Vec<SelectedPromptTerm>,
    corpus: &CorpusDefinition,
    term: &CorpusTerm,
    languages: &[String],
    Ghost(start): Ghost<Seq<RowView>>,
    Ghost(offered): Ghost<Seq<(DefinitionView, Seq<Seq<char>>)>>,
)
    requires
        rv(old(rows)@) == insert_rows(start, offered, sv(languages@)),
    ensures
        rv(final(rows)@) == insert_rows(start, offered.push((corpus@, term@)), sv(languages@)),
{
    insert_selected_term(rows, corpus, term, languages);
    proof {
        lemma_insert_rows_push(start, offered, (corpus@, term@), sv(languages@));
    }
}

/// Whether any term of a corpus overlaps `t`.
fn any_overlap_exec(terms: &Vec<CorpusTerm>, t: &CorpusTerm) -> (r: bool)
    ensures
        r == any_overlap(terms_view(terms@), t@),
{
    let mut k: usize = 0;
    while k < terms.len()
        invariant
            0 <= k <= terms@.len(),
            forall|j: int| 0 <= j < k ==> !terms_overlap_spec(t@, #[trigger] terms_view(terms@)[j]),
        decreases terms@.len() - k,
    {
        assert(terms_view(terms@)[k as int] == terms@[k as int]@);
        if terms_overlap(t, &terms[k]) {
            return true;
        }
        k = k + 1;
    }
    false
}

/// Terminology rows of the ranked selected corpora (see `term_rows_spec`).
pub fn selected_term_rows(corpora: &Vec<SelectedCorpus>, languages: &[String]) -> (r: Vec<
    SelectedPromptTerm,
>)
    ensures
        rv(r@) == term_rows_spec(cv(corpora@), sv(languages@)),
{
    let ghost langs = sv(languages@);
    let ghost cs = cv(corpora@);
    let mut rows: Vec<SelectedPromptTerm> = Vec::new();
    let ghost mut offered: Seq<(DefinitionView, Seq<Seq<char>>)> = Seq::empty();
    proof {
        assert(rv(rows@) =~= Seq::<RowView>::empty());
    }
    let mut i: usize = 0;
    while i < corpora.len()
        invariant
            0 <= i <= corpora@.len(),
            langs == sv(languages@),
            cs == cv(corpora@),
            offered == canonical_pairs(cs.take(i as int), langs),
            rv(rows@) == insert_rows(Seq::empty(), offered, langs),
        decreases corpora@.len() - i,
    {
        let corpus = &corpora[i];
        let d = &corpus.definition;
        assert(cs[i as int] == corpus@);
        assert(cs.take(i + 1).drop_last() =~= cs.take(i as int));
        assert(cs.take(i + 1).last() == corpus@);
        let ghost base = offered;
        let mut j: usize = 0;
        while j < corpus.matched_canonical_triggers.len()
            invariant
                0 <= j <= corpus.matched_canonical_triggers@.len(),
                langs == sv(languages@),
                offered == base + triggers_pairs(
                    d@,
                    terms_view(corpus.matched_canonical_triggers@).take(j as int),
                    langs,
                ),
                rv(rows@) == insert_rows(Seq::empty(), offered, langs),
            decreases corpus.matched_canonical_triggers@.len() - j,
        {
            let trigger = &corpus.matched_canonical_triggers[j];
            let ghost tv = terms_view(corpus.matched_canonical_triggers@);
            assert(tv.take(j + 1).drop_last() =~= tv.take(j as int));
            assert(tv.take(j + 1).last() == trigger@);
            let ghost before = offered;
            let mut k: usize = 0;
            while k < d.terms.len()
                invariant
                    0 <= k <= d.terms@.len(),
                    langs == sv(languages@),
                    offered == before + overlap_pairs(d@, terms_view(d.terms@).take(k as int), trigger@),
                    rv(rows@) == insert_rows(Seq::empty(), offered, langs),
                decreases d.terms@.len() - k,
            {
                let ghost dt = terms_view(d.terms@);
                assert(dt.take(k + 1).drop_last() =~= dt.take(k as int));
                assert(dt.take(k + 1).last() == d.terms@[k as int]@);
                if terms_overlap(trigger, &d.terms[k]) {
                    insert_pair(&mut rows, d, &d.terms[k], languages, Ghost(Seq::empty()), Ghost(offered));
                    proof {
                        offered = offered.push((d@, d.terms@[k as int]@));
                    }
                }
                assert(offered =~= before + overlap_pairs(d@, terms_view(d.terms@).take(k + 1), trigger@));
                k = k + 1;
            }
            assert(terms_view(d.terms@).take(d.terms@.len() as int) =~= d@.terms);
            if !any_overlap_exec(&d.terms, trigger) && is_multilingual_mapping(trigger, languages) {
                insert_pair(&mut rows, d, trigger, languages, Ghost(Seq::empty()), Ghost(offered));
                proof {
                    offered = offered.push((d@, trigger@));
                }
            }
            assert(offered =~= base + triggers_pairs(d@, tv.take(j + 1), langs));
            j = j + 1;
        }
        assert(terms_view(corpus.matched_canonical_triggers@).take(
            corpus.matched_canonical_triggers@.len() as int,
        ) =~= terms_view(corpus.matched_canonical_triggers@));
        assert(offered =~= canonical_pairs(cs.take(i + 1), langs));
        i = i + 1;
    }
    assert(cs.take(corpora@.len() as int) =~= cs);
    let ghost first = offered;
    // The largest corpus.
    let mut max: usize = 0;
    let mut m: usize = 0;
    while m < corpora.len()
        invariant
            0 <= m <= corpora@.len(),
            cs == cv(corpora@),
            max == max_terms(cs.take(m as int)),
        decreases corpora@.len() - m,
    {
        assert(cs.take(m + 1).drop_last() =~= cs.take(m as int));
        assert(cs.take(m + 1).last() == corpora@[m as int]@);
        if corpora[m].definition.terms.len() > max {
            max = corpora[m].definition.terms.len();
        }
        m = m + 1;
    }
    assert(cs.take(corpora@.len() as int) =~= cs);
    let mut idx: usize = 0;
    while idx < max
        invariant
            0 <= idx <= max,
            langs == sv(languages@),
            cs == cv(corpora@),
            offered == first + columns_pairs(cs, idx as int),
            rv(rows@) == insert_rows(Seq::empty(), offered, langs),
        decreases max - idx,
    {
        let ghost before = offered;
        let mut c: usize = 0;
        while c < corpora.len()
            invariant
                0 <= c <= corpora@.len(),
                langs == sv(languages@),
                cs == cv(corpora@),
                offered == before + column_pairs(cs.take(c as int), idx as int),
                rv(rows@) == insert_rows(Seq::empty(), offered, langs),
            decreases corpora@.len() - c,
        {
            assert(cs.take(c + 1).drop_last() =~= cs.take(c as int));
            assert(cs.take(c + 1).last() == corpora@[c as int]@);
            let d = &corpora[c].definition;
            if idx < d.terms.len() {
                assert(d@.terms[idx as int] == d.terms@[idx as int]@);
                insert_pair(&mut rows, d, &d.terms[idx], languages, Ghost(Seq::empty()), Ghost(offered));
                proof {
                    offered = offered.push((d@, d.terms@[idx as int]@));
                }
            }
            assert(offered =~= before + column_pairs(cs.take(c + 1), idx as int));
            c = c + 1;
        }
        assert(cs.take(corpora@.len() as int) =~= cs);
        assert(offered =~= first + columns_pairs(cs, idx + 1));
        idx = idx + 1;
    }
    rows
}

/// `(corpus, trigger)` pairs of the activation triggers of every corpus.
pub open spec fn activation_pairs(cs: Seq<SelectedView>) -> Seq<(DefinitionView, Seq<Seq<char>>)>
    decreases cs.len(),
{
    if cs.len() == 0 {
        Seq::empty()
    } else {
        activation_pairs(cs.drop_last()) + list_pairs(cs.last().definition, cs.last().activation_triggers)
    }
}

/// `(corpus, trigger)` pairs of the matched canonical and current triggers
/// of every corpus.
pub open spec fn context_pairs(cs: Seq<SelectedView>) -> Seq<(DefinitionView, Seq<Seq<char>>)>
    decreases cs.len(),
{
    if cs.len() == 0 {
        Seq::empty()
    } else {
        context_pairs(cs.drop_last()) + list_pairs(
            cs.last().definition,
            cs.last().matched_canonical_triggers + cs.last().current_triggers,
        )
    }
}

/// Rows of the triggers that newly activated corpora in this observation.
pub open spec fn activation_rows_spec(cs: Seq<SelectedView>, languages: Seq<Seq<char>>) -> Seq<RowView> {
    insert_rows(Seq::empty(), activation_pairs(cs), languages)
}

/// Source-side context rows: the terminology rows plus the matched
/// canonical and current triggers.
pub open spec fn context_rows_spec(
    cs: Seq<SelectedView>,
    terms: Seq<RowView>,
    languages: Seq<Seq<char>>,
) -> Seq<RowView> {
    insert_rows(terms, context_pairs(cs), languages)
}

/// Inserts every term of a list from one corpus.
fn insert_list(
    rows: &mut Vec<SelectedPromptTerm>,
    corpus: &CorpusDefinition,
    terms: &Vec<CorpusTerm>,
    languages: &[String],
    Ghost(start): Ghost<Seq<RowView>>,
    Ghost(offered): Ghost<Seq<(DefinitionView, Seq<Seq<char>>)>>,
)
    requires
        rv(old(rows)@) == insert_rows(start, offered, sv(languages@)),
    ensures
        rv(final(rows)@) == insert_rows(
            start,
            offered + list_pairs(corpus@, terms_view(terms@)),
            sv(languages@),
        ),
{
    let ghost mut done = offered;
    let mut k: usize = 0;
    while k < terms.len()
        invariant
            0 <= k <= terms@.len(),
            done == offered + list_pairs(corpus@, terms_view(terms@).take(k as int)),
            rv(rows@) == insert_rows(start, done, sv(languages@)),
        decreases terms@.len() - k,
    {
        insert_pair(rows, corpus, &terms[k], languages, Ghost(start), Ghost(done));
        proof {
            done = done.push((corpus@, terms@[k as int]@));
            assert(done =~= offered + list_pairs(corpus@, terms_view(terms@).take(k + 1)));
        }
        k = k + 1;
    }
    assert(terms_view(terms@).take(terms@.len() as int) =~= terms_view(terms@));
}

/// Rows of the activation triggers (see `activation_rows_spec`).
pub fn selected_activation_rows(corpora: &Vec<SelectedCorpus>, languages: &[String]) -> (r: Vec<
    SelectedPromptTerm,
>)
    ensures
        rv(r@) == activation_rows_spec(cv(corpora@), sv(languages@)),
{
    let ghost cs = cv(corpora@);
    let mut rows: Vec<SelectedPromptTerm> = Vec::new();
    let ghost mut offered: Seq<(DefinitionView, Seq<Seq<char>>)> = Seq::empty();
    proof {
        assert(rv(rows@) =~= Seq::<RowView>::empty());
    }
    let mut i: usize = 0;
    while i < corpora.len()
        invariant
            0 <= i <= corpora@.len(),
            cs == cv(corpora@),
            offered == activation_pairs(cs.take(i as int)),
            rv(rows@) == insert_rows(Seq::empty(), offered, sv(languages@)),
        decreases corpora@.len() - i,
    {
        assert(cs.take(i + 1).drop_last() =~= cs.take(i as int));
        assert(cs.take(i + 1).last() == corpora@[i as int]@);
        insert_list(
            &mut rows,
            &corpora[i].definition,
            &corpora[i].activation_triggers,
            languages,
            Ghost(Seq::empty()),
            Ghost(offered),
        );
        proof {
            offered = offered + list_pairs(
                corpora@[i as int].definition@,
                terms_view(corpora@[i as int].activation_triggers@),
            );
        }
        i = i + 1;
    }
    assert(cs.take(corpora@.len() as int) =~= cs);
    rows
}

/// Rows of the recognition context (see `context_rows_spec`).
pub fn selected_recognition_context_rows(
    corpora: &Vec<SelectedCorpus>,
    terms: &[SelectedPromptTerm],
    languages: &[String],
) -> (r: Vec<SelectedPromptTerm>)
    ensures
        rv(r@) == context_rows_spec(cv(corpora@), rv(terms@), sv(languages@)),
{
    let ghost cs = cv(corpora@);
    let mut rows = clone_rows(terms);
    let ghost start = rv(terms@);
    let ghost mut offered: Seq<(DefinitionView, Seq<Seq<char>>)> = Seq::empty();
    let mut i: usize = 0;
    while i < corpora.len()
        invariant
            0 <= i <= corpora@.len(),
            cs == cv(corpora@),
            start == rv(terms@),
            offered == context_pairs(cs.take(i as int)),
            rv(rows@) == insert_rows(start, offered, sv(languages@)),
        decreases corpora@.len() - i,
    {
        assert(cs.take(i + 1).drop_last() =~= cs.take(i as int));
        assert(cs.take(i + 1).last() == corpora@[i as int]@);
        let d = &corpora[i].definition;
        insert_list(
            &mut rows,
            d,
            &corpora[i].matched_canonical_triggers,
            languages,
            Ghost(start),
            Ghost(offered),
        );
        let ghost mid = offered + list_pairs(d@, terms_view(corpora@[i as int].matched_canonical_triggers@));
        insert_list(
            &mut rows,
            d,
            &corpora[i].current_triggers,
            languages,
            Ghost(start),
            Ghost(mid),
        );
        proof {
            let a = terms_view(corpora@[i as int].matched_canonical_triggers@);
            let b = terms_view(corpora@[i as int].current_triggers@);
            assert(list_pairs(d@, a + b) =~= list_pairs(d@, a) + list_pairs(d@, b));
            offered = mid + list_pairs(d@, b);
            assert(offered =~= context_pairs(cs.take(i + 1)));
        }
        i = i + 1;
    }
    assert(cs.take(corpora@.len() as int) =~= cs);
    rows
}

} // verus!
