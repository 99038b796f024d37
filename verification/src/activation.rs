//! Which corpora an observation selects, with the evidence behind each, and
//! in which order.

use vstd::prelude::*;

use crate::corpus::{
    CorpusActivation, CorpusDefinition, CorpusTerm, DefinitionView, clone_terms, definitions_view,
    terms_view,
};
use crate::evidence::{filter_matching, matching_terms};
use crate::language::strings_contain;
use crate::prompt::sv;
use crate::selection::{SelectedCorpus, SelectedView, cv};

verus! {

broadcast use vstd::string::group_string_axioms;

/// A selected corpus with its rank: priority, evidence score and position
/// in the catalog snapshot.
pub struct RankedView {
    pub priority: i32,
    pub score: int,
    pub index: int,
    pub corpus: SelectedView,
}

/// What the evidence selects of one corpus at position `index`, or nothing
/// when the corpus is not eligible.
///
/// `evidence` is the history and hints plus runtime words, `activation` the
/// current hints plus runtime words, and `current` the current hints alone.
pub open spec fn corpus_entry(
    c: DefinitionView,
    index: int,
    evidence: Seq<char>,
    activation: Seq<char>,
    current: Seq<char>,
    active: Seq<Seq<char>>,
    dormant: Seq<Seq<char>>,
) -> Option<RankedView> {
    let all_triggers = c.triggers + c.trigger_aliases;
    let matched_triggers = matching_terms(all_triggers, evidence);
    let matched_canonical = matching_terms(c.triggers, evidence);
    let matched_context = matching_terms(c.activation_context, evidence);
    let current_matched = matching_terms(all_triggers, activation);
    let current_context = matching_terms(c.activation_context, activation);
    let context_ok = c.activation_context.len() == 0 || current_context.len() > 0;
    let current_speech = matching_terms(current_matched, current);
    let current_terms = matching_terms(c.terms, current);
    let newly = current_matched.len() > 0 && context_ok;
    let from_history = c.activation_context.len() == 0 && matched_triggers.len() > 0
        && !dormant.contains(c.id);
    let is_active = active.contains(c.id);
    let eligible = c.activation == CorpusActivation::Always || c.activation
        == CorpusActivation::RuntimeOnly || newly || from_history || is_active;
    let current_triggers = if c.activation == CorpusActivation::OnEvidence && newly {
        current_speech
    } else {
        Seq::empty()
    };
    let activation_triggers = if is_active {
        Seq::empty()
    } else {
        current_triggers
    };
    if eligible {
        Some(
            RankedView {
                priority: c.priority,
                score: (current_matched.len() + current_context.len() + matched_triggers.len()
                    + matched_context.len()) as int,
                index,
                corpus: SelectedView {
                    definition: c,
                    matched_canonical_triggers: matched_canonical,
                    current_triggers,
                    current_terms,
                    activation_triggers,
                    currently_eligible: newly,
                },
            },
        )
    } else {
        None
    }
}

/// The eligible corpora of a snapshot, in snapshot order.
pub open spec fn eligible_entries(
    snapshot: Seq<DefinitionView>,
    evidence: Seq<char>,
    activation: Seq<char>,
    current: Seq<char>,
    active: Seq<Seq<char>>,
    dormant: Seq<Seq<char>>,
) -> Seq<RankedView>
    decreases snapshot.len(),
{
    if snapshot.len() == 0 {
        Seq::empty()
    } else {
        let head = eligible_entries(snapshot.drop_last(), evidence, activation, current, active, dormant);
        match corpus_entry(
            snapshot.last(),
            snapshot.len() - 1,
            evidence,
            activation,
            current,
            active,
            dormant,
        ) {
            Some(e) => head.push(e),
            None => head,
        }
    }
}

/// Whether an entry is one the current observation activates.
pub open spec fn activates_now(e: RankedView) -> bool {
    e.corpus.current_triggers.len() > 0
}

/// Whether an entry survives when the current observation activates a
/// corpus: runtime corpora and corpora eligible now.
pub open spec fn kept_on_activation(e: RankedView) -> bool {
    e.corpus.definition.activation == CorpusActivation::Always || e.corpus.definition.activation
        == CorpusActivation::RuntimeOnly || e.corpus.currently_eligible || activates_now(e)
}

/// Whether an entry survives while topics are active: runtime corpora and
/// the active ones.
pub open spec fn kept_while_active(e: RankedView, active: Seq<Seq<char>>) -> bool {
    e.corpus.definition.activation == CorpusActivation::Always || e.corpus.definition.activation
        == CorpusActivation::RuntimeOnly || active.contains(e.corpus.definition.id)
}

/// The entries satisfying `kept_on_activation`.
pub open spec fn filter_on_activation(s: Seq<RankedView>) -> Seq<RankedView>
    decreases s.len(),
{
    if s.len() == 0 {
        s
    } else if kept_on_activation(s.last()) {
        filter_on_activation(s.drop_last()).push(s.last())
    } else {
        filter_on_activation(s.drop_last())
    }
}

/// The entries satisfying `kept_while_active`.
pub open spec fn filter_while_active(s: Seq<RankedView>, active: Seq<Seq<char>>) -> Seq<RankedView>
    decreases s.len(),
{
    if s.len() == 0 {
        s
    } else if kept_while_active(s.last(), active) {
        filter_while_active(s.drop_last(), active).push(s.last())
    } else {
        filter_while_active(s.drop_last(), active)
    }
}

/// A new activation drops stale specialist corpora; otherwise active topics
/// restrict the selection to themselves and the runtime corpora.
pub open spec fn retained_entries(s: Seq<RankedView>, active: Seq<Seq<char>>) -> Seq<RankedView> {
    if exists|k: int| 0 <= k < s.len() && activates_now(#[trigger] s[k]) {
        filter_on_activation(s)
    } else if active.len() > 0 {
        filter_while_active(s, active)
    } else {
        s
    }
}

/// Rank order: higher priority first, then higher score, then earlier in
/// the snapshot.
pub open spec fn ranks_before(a: RankedView, b: RankedView) -> bool {
    a.priority > b.priority || (a.priority == b.priority && (a.score > b.score || (a.score
        == b.score && a.index < b.index)))
}

/// Inserts after every element that `x` does not rank before.
pub open spec fn insert_ranked(s: Seq<RankedView>, x: RankedView) -> Seq<RankedView>
    decreases s.len(),
{
    if s.len() == 0 {
        seq![x]
    } else if ranks_before(x, s.last()) {
        insert_ranked(s.drop_last(), x).push(s.last())
    } else {
        s.push(x)
    }
}

/// Stable sort by rank.
pub open spec fn sort_ranked(s: Seq<RankedView>) -> Seq<RankedView>
    decreases s.len(),
{
    if s.len() == 0 {
        s
    } else {
        insert_ranked(sort_ranked(s.drop_last()), s.last())
    }
}

/// Where `insert_ranked` places `x`.
pub open spec fn ranked_pos(s: Seq<RankedView>, x: RankedView) -> int
    decreases s.len(),
{
    if s.len() == 0 {
        0
    } else if ranks_before(x, s.last()) {
        ranked_pos(s.drop_last(), x)
    } else {
        s.len() as int
    }
}

proof fn lemma_insert_ranked_pos(s: Seq<RankedView>, x: RankedView)
    ensures
        0 <= ranked_pos(s, x) <= s.len(),
        insert_ranked(s, x) == s.insert(ranked_pos(s, x), x),
    decreases s.len(),
{
    if s.len() == 0 {
        assert(s.insert(0, x) =~= seq![x]);
    } else if ranks_before(x, s.last()) {
        lemma_insert_ranked_pos(s.drop_last(), x);
        let p = ranked_pos(s.drop_last(), x);
        assert(s.drop_last().insert(p, x).push(s.last()) =~= s.insert(p, x));
    } else {
        assert(s.push(x) =~= s.insert(s.len() as int, x));
    }
}

proof fn lemma_ranked_pos_prefix(s: Seq<RankedView>, x: RankedView, p: int)
    requires
        0 <= p <= s.len(),
        forall|k: int| p <= k < s.len() ==> ranks_before(x, #[trigger] s[k]),
    ensures
        ranked_pos(s, x) == ranked_pos(s.take(p), x),
    decreases s.len() - p,
{
    if p < s.len() {
        assert(s.drop_last() =~= s.take(s.len() - 1));
        assert(ranks_before(x, s.last()));
        lemma_ranked_pos_prefix(s.drop_last(), x, p);
        assert(s.drop_last().take(p) =~= s.take(p));
    } else {
        assert(s.take(p) =~= s);
    }
}

/// The corpora selected for an observation, best ranked first.
pub open spec fn matching_corpora_spec(
    snapshot: Seq<DefinitionView>,
    evidence: Seq<char>,
    activation: Seq<char>,
    current: Seq<char>,
    active: Seq<Seq<char>>,
    dormant: Seq<Seq<char>>,
) -> Seq<SelectedView> {
    sort_ranked(
        retained_entries(
            eligible_entries(snapshot, evidence, activation, current, active, dormant),
            active,
        ),
    ).map_values(|e: RankedView| e.corpus)
}

/// A selected corpus with its rank.
struct Ranked {
    priority: i32,
    score: u128,
    index: usize,
    corpus: SelectedCorpus,
}

impl View for Ranked {
    type V = RankedView;

    closed spec fn view(&self) -> RankedView {
        RankedView {
            priority: self.priority,
            score: self.score as int,
            index: self.index as int,
            corpus: self.corpus@,
        }
    }
}

spec fn ranked_view(v: Seq<Ranked>) -> Seq<RankedView> {
    v.map_values(|e: Ranked| e@)
}

/// Evaluates `corpus_entry` for one corpus.
fn entry_of(
    c: &CorpusDefinition,
    index: usize,
    evidence: &[char],
    activation: &[char],
    current: &[char],
    active: &Vec<String>,
    dormant: &Vec<String>,
) -> (r: Option<Ranked>)
    ensures
        match r {
            Some(e) => corpus_entry(
                c@,
                index as int,
                evidence@,
                activation@,
                current@,
                sv(active@),
                sv(dormant@),
            ) == Some(e@),
            None => corpus_entry(
                c@,
                index as int,
                evidence@,
                activation@,
                current@,
                sv(active@),
                sv(dormant@),
            ) is None,
        },
{
    let mut all_triggers = clone_terms(&c.triggers);
    let mut aliases = clone_terms(&c.trigger_aliases);
    all_triggers.append(&mut aliases);
    assert(terms_view(all_triggers@) =~= c@.triggers + c@.trigger_aliases);
    let matched_triggers = filter_matching(&all_triggers, evidence);
    let matched_canonical = filter_matching(&c.triggers, evidence);
    let matched_context = filter_matching(&c.activation_context, evidence);
    let current_matched = filter_matching(&all_triggers, activation);
    let current_context = filter_matching(&c.activation_context, activation);
    let context_ok = c.activation_context.len() == 0 || current_context.len() > 0;
    let current_speech = filter_matching(&current_matched, current);
    let current_terms = filter_matching(&c.terms, current);
    let newly = current_matched.len() > 0 && context_ok;
    let from_history = c.activation_context.len() == 0 && matched_triggers.len() > 0
        && !strings_contain(dormant, c.id.as_str());
    let is_active = strings_contain(active, c.id.as_str());
    let eligible = c.activation == CorpusActivation::Always || c.activation
        == CorpusActivation::RuntimeOnly || newly || from_history || is_active;
    if !eligible {
        return None;
    }
    let current_triggers = if c.activation == CorpusActivation::OnEvidence && newly {
        current_speech
    } else {
        let none: Vec<CorpusTerm> = Vec::new();
        assert(terms_view(none@) =~= Seq::<Seq<Seq<char>>>::empty());
        none
    };
    let activation_triggers = if is_active {
        let none: Vec<CorpusTerm> = Vec::new();
        assert(terms_view(none@) =~= Seq::<Seq<Seq<char>>>::empty());
        none
    } else {
        clone_terms(&current_triggers)
    };
    let score: u128 = current_matched.len() as u128 + current_context.len() as u128
        + matched_triggers.len() as u128 + matched_context.len() as u128;
    let e = Ranked {
        priority: c.priority,
        score,
        index,
        corpus: SelectedCorpus {
            definition: c.clone(),
            matched_canonical_triggers: matched_canonical,
            current_triggers,
            current_terms,
            activation_triggers,
            currently_eligible: newly,
        },
    };
    proof {
        assert(e@.corpus.current_triggers == (if c@.activation == CorpusActivation::OnEvidence && newly {
            matching_terms(terms_view(current_matched@), current@)
        } else {
            Seq::empty()
        }));
        assert(e@.corpus.activation_triggers == (if is_active {
            Seq::<Seq<Seq<char>>>::empty()
        } else {
            e@.corpus.current_triggers
        }));
    }
    Some(e)
}

/// Stable insertion of one entry by rank.
fn insert_ranked_exec(sorted: &mut Vec<Ranked>, x: Ranked)
    ensures
        ranked_view(final(sorted)@) == insert_ranked(ranked_view(old(sorted)@), x@),
{
    let ghost s = ranked_view(sorted@);
    let mut pos: usize = sorted.len();
    while pos > 0 && (x.priority > sorted[pos - 1].priority || (x.priority == sorted[pos - 1].priority
        && (x.score > sorted[pos - 1].score || (x.score == sorted[pos - 1].score && x.index
        < sorted[pos - 1].index))))
        invariant
            0 <= pos <= sorted@.len(),
            s == ranked_view(sorted@),
            forall|k: int| pos <= k < s.len() ==> ranks_before(x@, #[trigger] s[k]),
        decreases pos,
    {
        assert(s[pos - 1] == sorted@[pos - 1]@);
        pos = pos - 1;
    }
    proof {
        lemma_ranked_pos_prefix(s, x@, pos as int);
        lemma_insert_ranked_pos(s, x@);
        if pos > 0 {
            assert(s[pos - 1] == sorted@[pos - 1]@);
            assert(s.take(pos as int).drop_last() =~= s.take(pos - 1));
            assert(s.take(pos as int).last() == s[pos - 1]);
        }
    }
    let ghost xv = x@;
    sorted.insert(pos, x);
    assert(ranked_view(sorted@) =~= s.insert(pos as int, xv));
}

/// Selects and ranks the corpora of a snapshot for one observation (see
/// `matching_corpora_spec`).
pub fn matching_corpora_in(
    snapshot: &Vec<CorpusDefinition>,
    evidence: &[char],
    activation: &[char],
    current: &[char],
    active: &Vec<String>,
    dormant: &Vec<String>,
) -> (r: Vec<SelectedCorpus>)
    ensures
        cv(r@) == matching_corpora_spec(
            definitions_view(snapshot@),
            evidence@,
            activation@,
            current@,
            sv(active@),
            sv(dormant@),
        ),
{
    let ghost dv = definitions_view(snapshot@);
    let mut entries: Vec<Ranked> = Vec::new();
    let mut i: usize = 0;
    while i < snapshot.len()
        invariant
            0 <= i <= snapshot@.len(),
            dv == definitions_view(snapshot@),
            ranked_view(entries@) == eligible_entries(
                dv.take(i as int),
                evidence@,
                activation@,
                current@,
                sv(active@),
                sv(dormant@),
            ),
            forall|k: int| 0 <= k < entries@.len() ==> (#[trigger] entries@[k]).index < i,
        decreases snapshot@.len() - i,
    {
        assert(dv.take(i + 1).drop_last() =~= dv.take(i as int));
        assert(dv.take(i + 1).last() == snapshot@[i as int]@);
        match entry_of(&snapshot[i], i, evidence, activation, current, active, dormant) {
            Some(e) => {
                let ghost before = ranked_view(entries@);
                entries.push(e);
                assert(ranked_view(entries@) =~= before.push(entries@.last()@));
            },
            None => {},
        }
        i = i + 1;
    }
    assert(dv.take(dv.len() as int) =~= dv);
    // Retention.
    let ghost ev = ranked_view(entries@);
    let mut any_now = false;
    let mut k: usize = 0;
    while k < entries.len()
        invariant
            0 <= k <= entries@.len(),
            ev == ranked_view(entries@),
            any_now == exists|q: int| 0 <= q < k && activates_now(#[trigger] ev[q]),
        decreases entries@.len() - k,
    {
        assert(ev[k as int] == entries@[k as int]@);
        if entries[k].corpus.current_triggers.len() > 0 {
            any_now = true;
        }
        k = k + 1;
    }
    let mut kept: Vec<Ranked> = Vec::new();
    if any_now || active.len() > 0 {
        let mut m: usize = 0;
        while m < entries.len()
            invariant
                0 <= m <= entries@.len(),
                ev == ranked_view(entries@),
                ranked_view(kept@) == if any_now {
                    filter_on_activation(ev.take(m as int))
                } else {
                    filter_while_active(ev.take(m as int), sv(active@))
                },
            decreases entries@.len() - m,
        {
            assert(ev.take(m + 1).drop_last() =~= ev.take(m as int));
            assert(ev.take(m + 1).last() == entries@[m as int]@);
            let e = &entries[m];
            let runtime = e.corpus.definition.activation == CorpusActivation::Always
                || e.corpus.definition.activation == CorpusActivation::RuntimeOnly;
            let keep = if any_now {
                runtime || e.corpus.currently_eligible || e.corpus.current_triggers.len() > 0
            } else {
                runtime || strings_contain(active, e.corpus.definition.id.as_str())
            };
            if keep {
                let ghost before = ranked_view(kept@);
                let copy = Ranked {
                    priority: e.priority,
                    score: e.score,
                    index: e.index,
                    corpus: e.corpus.clone(),
                };
                kept.push(copy);
                assert(ranked_view(kept@) =~= before.push(entries@[m as int]@));
            }
            m = m + 1;
        }
        assert(ev.take(ev.len() as int) =~= ev);
    } else {
        kept = entries;
    }
    let ghost retained = ranked_view(kept@);
    assert(retained == retained_entries(ev, sv(active@)));
    // Sort by rank.
    let mut sorted: Vec<Ranked> = Vec::new();
    assert(ranked_view(sorted@) =~= sort_ranked(retained.take(0)));
    let mut n: usize = 0;
    while n < kept.len()
        invariant
            0 <= n <= kept@.len(),
            retained == ranked_view(kept@),
            ranked_view(sorted@) == sort_ranked(retained.take(n as int)),
        decreases kept@.len() - n,
    {
        assert(retained.take(n + 1).drop_last() =~= retained.take(n as int));
        assert(retained.take(n + 1).last() == kept@[n as int]@);
        let e = &kept[n];
        let copy = Ranked { priority: e.priority, score: e.score, index: e.index, corpus: e.corpus.clone() };
        insert_ranked_exec(&mut sorted, copy);
        n = n + 1;
    }
    assert(retained.take(retained.len() as int) =~= retained);
    let ghost ordered = ranked_view(sorted@);
    let mut r: Vec<SelectedCorpus> = Vec::new();
    let mut q: usize = 0;
    while q < sorted.len()
        invariant
            0 <= q <= sorted@.len(),
            ordered == ranked_view(sorted@),
            cv(r@) == ordered.take(q as int).map_values(|e: RankedView| e.corpus),
        decreases sorted@.len() - q,
    {
        let ghost before = cv(r@);
        r.push(sorted[q].corpus.clone());
        assert(cv(r@) =~= before.push(ordered[q as int].corpus));
        assert(ordered.take(q + 1).map_values(|e: RankedView| e.corpus) =~= ordered.take(q as int).map_values(
            |e: RankedView| e.corpus,
        ).push(ordered[q as int].corpus));
        q = q + 1;
    }
    assert(ordered.take(ordered.len() as int) =~= ordered);
    r
}

} // verus!
