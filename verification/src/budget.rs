//! Budgeted assembly of the ASR and translation prompts.

use vstd::prelude::*;

use crate::fold::{fold, fold_chars_of};
use crate::language::split_chars;
use crate::language::split_on;
use crate::prompt::{
    join, token_weight_sum, HistoryTurn, HistoryView, asr_prompt_text, estimated_prompt_tokens, estimated_tokens, hv,
    keys_contain, lemma_push_to_set, newest, newest_turns, render_asr_prompt,
    render_translation_prompt, sv, translation_prompt_text, within_budget, within_prompt_budget,
};
use crate::rows::{RowView, SelectedPromptTerm, clone_rows, row_strings, row_texts, rv};
use crate::text::chars_of;

verus! {

broadcast use vstd::string::group_string_axioms;

// ---------------------------------------------------------------------------
// ASR prompt.
// ---------------------------------------------------------------------------

/// The task-language values of rows, flattened in order.
pub open spec fn flat_values(rows: Seq<RowView>) -> Seq<Seq<char>>
    decreases rows.len(),
{
    if rows.len() == 0 {
        Seq::empty()
    } else {
        flat_values(rows.drop_last()) + rows.last().values.map_values(
            |p: (Seq<char>, Seq<char>)| p.1,
        )
    }
}

/// Hotword collection: each value with a new, non-empty folded form is
/// offered once; it is kept when the prompt with it still fits both budgets.
pub open spec fn asr_collect(values: Seq<Seq<char>>, budget: int, token_budget: int) -> (
    Seq<Seq<char>>,
    Set<Seq<char>>,
)
    decreases values.len(),
{
    if values.len() == 0 {
        (Seq::empty(), Set::empty())
    } else {
        let (hotwords, seen) = asr_collect(values.drop_last(), budget, token_budget);
        let v = values.last();
        let key = fold(v);
        if key.len() == 0 || seen.contains(key) {
            (hotwords, seen)
        } else if within_budget(asr_prompt_text(hotwords.push(v)), budget, token_budget) {
            (hotwords.push(v), seen.insert(key))
        } else {
            (hotwords, seen.insert(key))
        }
    }
}

/// The ASR prompt: `Vocabulary: ` and the collected hotwords, absent when no
/// hotword fits.
pub open spec fn asr_prompt_spec(rows: Seq<RowView>, budget: int, token_budget: int) -> Option<
    Seq<char>,
> {
    let hotwords = asr_collect(flat_values(rows), budget, token_budget).0;
    if hotwords.len() == 0 {
        None
    } else {
        Some(asr_prompt_text(hotwords))
    }
}

proof fn lemma_asr_collect_fits(values: Seq<Seq<char>>, budget: int, token_budget: int)
    ensures
        ({
            let hotwords = asr_collect(values, budget, token_budget).0;
            hotwords.len() == 0 || within_budget(asr_prompt_text(hotwords), budget, token_budget)
        }),
    decreases values.len(),
{
    if values.len() > 0 {
        lemma_asr_collect_fits(values.drop_last(), budget, token_budget);
    }
}

/// Every ASR prompt fits its character and token budgets.
pub proof fn lemma_asr_prompt_within_budget(rows: Seq<RowView>, budget: int, token_budget: int)
    ensures
        asr_prompt_spec(rows, budget, token_budget) matches Some(p) ==> within_budget(
            p,
            budget,
            token_budget,
        ),
{
    lemma_asr_collect_fits(flat_values(rows), budget, token_budget);
}

proof fn lemma_asr_collect_distinct(values: Seq<Seq<char>>, budget: int, token_budget: int)
    ensures
        ({
            let (hotwords, seen) = asr_collect(values, budget, token_budget);
            &&& forall|i: int, j: int|
                0 <= i < j < hotwords.len() ==> fold(#[trigger] hotwords[i]) != fold(#[trigger] hotwords[j])
            &&& forall|k: int| 0 <= k < hotwords.len() ==> seen.contains(fold(#[trigger] hotwords[k]))
            &&& forall|k: int| 0 <= k < hotwords.len() ==> fold(#[trigger] hotwords[k]).len() > 0
            &&& forall|k: int| 0 <= k < hotwords.len() ==> values.contains(#[trigger] hotwords[k])
        }),
    decreases values.len(),
{
    if values.len() > 0 {
        let d = values.drop_last();
        lemma_asr_collect_distinct(d, budget, token_budget);
        let (h, seen) = asr_collect(d, budget, token_budget);
        let v = values.last();
        let r = asr_collect(values, budget, token_budget);
        assert forall|k: int| 0 <= k < h.len() implies values.contains(#[trigger] h[k]) by {
            let q = choose|q: int| 0 <= q < d.len() && d[q] == h[k];
            assert(values[q] == h[k]);
        }
        if !(fold(v).len() == 0 || seen.contains(fold(v))) && within_budget(
            asr_prompt_text(h.push(v)),
            budget,
            token_budget,
        ) {
            let hw = h.push(v);
            assert(r.0 == hw);
            assert forall|i: int, j: int| 0 <= i < j < hw.len() implies fold(#[trigger] hw[i]) != fold(
                #[trigger] hw[j],
            ) by {
                if j == h.len() {
                    assert(hw[i] == h[i]);
                    assert(seen.contains(fold(h[i])));
                } else {
                    assert(hw[i] == h[i] && hw[j] == h[j]);
                }
            }
            assert forall|k: int| 0 <= k < hw.len() implies values.contains(#[trigger] hw[k]) by {
                if k < h.len() {
                    assert(hw[k] == h[k]);
                } else {
                    assert(values[values.len() - 1] == v);
                }
            }
            assert forall|k: int| 0 <= k < hw.len() implies r.1.contains(fold(#[trigger] hw[k])) by {
                if k < h.len() {
                    assert(hw[k] == h[k]);
                }
            }
        }
    }
}

/// No two hotwords of an ASR prompt fold to the same form: each hotword is
/// a value of the rows with a non-empty folded form, offered once.
pub proof fn lemma_asr_hotwords_distinct(rows: Seq<RowView>, budget: int, token_budget: int)
    ensures
        ({
            let hotwords = asr_collect(flat_values(rows), budget, token_budget).0;
            &&& forall|i: int, j: int|
                0 <= i < j < hotwords.len() ==> fold(#[trigger] hotwords[i]) != fold(#[trigger] hotwords[j])
            &&& forall|k: int| 0 <= k < hotwords.len() ==> fold(#[trigger] hotwords[k]).len() > 0
                && flat_values(rows).contains(hotwords[k])
            &&& asr_prompt_spec(rows, budget, token_budget) matches Some(p) ==> p == asr_prompt_text(hotwords)
                && hotwords.len() > 0
        }),
{
    lemma_asr_collect_distinct(flat_values(rows), budget, token_budget);
}

proof fn lemma_weight_concat(a: Seq<char>, b: Seq<char>)
    ensures
        token_weight_sum(a + b) == token_weight_sum(a) + token_weight_sum(b),
    decreases b.len(),
{
    if b.len() == 0 {
        assert(a + b =~= a);
    } else {
        lemma_weight_concat(a, b.drop_last());
        assert((a + b).drop_last() =~= a + b.drop_last());
        assert((a + b).last() == b.last());
    }
}

/// Whether `a` is no longer and no heavier (in token weight) than `b`.
spec fn lighter(a: Seq<char>, b: Seq<char>) -> bool {
    a.len() <= b.len() && token_weight_sum(a) <= token_weight_sum(b)
}

proof fn lemma_lighter_fits(a: Seq<char>, b: Seq<char>, budget: int, token_budget: int)
    requires
        lighter(a, b),
        within_budget(b, budget, token_budget),
    ensures
        within_budget(a, budget, token_budget),
{
    assert((token_weight_sum(a) + 2) / 3 <= (token_weight_sum(b) + 2) / 3) by (nonlinear_arith)
        requires
            token_weight_sum(a) <= token_weight_sum(b),
    ;
}

proof fn lemma_join_grows(h: Seq<Seq<char>>, e: Seq<Seq<char>>)
    ensures
        lighter(join(h, ", "@), join(h + e, ", "@)),
    decreases e.len(),
{
    if e.len() == 0 {
        assert(h + e =~= h);
    } else {
        lemma_join_grows(h, e.drop_last());
        let he = h + e;
        assert(he.drop_last() =~= h + e.drop_last());
        assert(he.last() == e.last());
        if he.len() == 1 {
            assert(h.len() == 0);
            assert(join(h, ", "@) == Seq::<char>::empty());
        } else {
            let j = join(he.drop_last(), ", "@);
            lemma_weight_concat(j, ", "@);
            lemma_weight_concat(j + ", "@, he.last());
        }
    }
}

proof fn lemma_join_push(g: Seq<Seq<char>>, u: Seq<char>)
    ensures
        g.len() == 0 ==> join(g.push(u), ", "@) == u,
        g.len() > 0 ==> join(g.push(u), ", "@) == join(g, ", "@) + ", "@ + u,
{
    assert(g.push(u).drop_last() =~= g);
    if g.len() == 0 {
        assert(g.push(u)[0] == u);
    }
}

/// Offering a word after more hotwords never makes the prompt shorter or
/// lighter.
proof fn lemma_prompt_push_grows(h: Seq<Seq<char>>, e: Seq<Seq<char>>, u: Seq<char>)
    ensures
        lighter(asr_prompt_text(h.push(u)), asr_prompt_text((h + e).push(u))),
{
    let big = h + e;
    lemma_join_push(h, u);
    lemma_join_push(big, u);
    lemma_join_grows(h, e);
    let ju = join(h.push(u), ", "@);
    let jb = join(big.push(u), ", "@);
    if h.len() == 0 {
        if big.len() > 0 {
            lemma_weight_concat(join(big, ", "@), ", "@);
            lemma_weight_concat(join(big, ", "@) + ", "@, u);
        }
    } else {
        lemma_weight_concat(join(h, ", "@), ", "@);
        lemma_weight_concat(join(h, ", "@) + ", "@, u);
        lemma_weight_concat(join(big, ", "@), ", "@);
        lemma_weight_concat(join(big, ", "@) + ", "@, u);
    }
    assert(lighter(ju, jb));
    lemma_weight_concat("Vocabulary: "@, ju);
    lemma_weight_concat("Vocabulary: "@, jb);
}

/// Whether `i` is the first position of a value with a non-empty folded
/// form that no earlier value shares.
pub open spec fn first_of_fold(values: Seq<Seq<char>>, i: int) -> bool {
    &&& 0 <= i < values.len()
    &&& fold(values[i]).len() > 0
    &&& forall|j: int| 0 <= j < i ==> fold(#[trigger] values[j]) != fold(values[i])
}

proof fn lemma_asr_collect_shape(values: Seq<Seq<char>>, budget: int, token_budget: int) -> (idx: Seq<int>)
    ensures
        ({
            let (h, seen) = asr_collect(values, budget, token_budget);
            &&& idx.len() == h.len()
            &&& forall|k: int| 0 <= k < h.len() ==> 0 <= #[trigger] idx[k] < values.len() && values[idx[k]] == h[k]
                && first_of_fold(values, idx[k])
            &&& forall|k1: int, k2: int| 0 <= k1 < k2 < h.len() ==> #[trigger] idx[k1] < #[trigger] idx[k2]
            &&& forall|x: Seq<char>| seen.contains(x) <==> exists|j: int|
                0 <= j < values.len() && fold(#[trigger] values[j]) == x && x.len() > 0
            &&& forall|i: int|
                #[trigger] first_of_fold(values, i) && (forall|k: int| 0 <= k < h.len() ==> fold(#[trigger] h[k]) != fold(
                    values[i],
                )) ==> !within_budget(asr_prompt_text(h.push(values[i])), budget, token_budget)
            &&& forall|i: int, m: int|
                #![trigger first_of_fold(values, i), h.take(m)]
                first_of_fold(values, i) && (forall|k: int| 0 <= k < h.len() ==> fold(#[trigger] h[k]) != fold(values[i]))
                    && 0 <= m <= h.len() && (forall|k: int| 0 <= k < m ==> #[trigger] idx[k] < i) && (forall|k: int|
                    m <= k < h.len() ==> #[trigger] idx[k] > i) ==> !within_budget(
                    asr_prompt_text(h.take(m).push(values[i])),
                    budget,
                    token_budget,
                )
        }),
    decreases values.len(),
{
    if values.len() == 0 {
        Seq::empty()
    } else {
        let d = values.drop_last();
        let di = lemma_asr_collect_shape(d, budget, token_budget);
        let (hd, sd) = asr_collect(d, budget, token_budget);
        let (h, seen) = asr_collect(values, budget, token_budget);
        let v = values.last();
        let key = fold(v);
        let n = d.len() as int;
        assert forall|j: int| 0 <= j < n implies #[trigger] d[j] == values[j] by {}
        assert forall|i: int| #[trigger] first_of_fold(d, i) <==> first_of_fold(values, i) && i < n by {
            if 0 <= i < n {
                assert(d[i] == values[i]);
                if first_of_fold(d, i) {
                    assert forall|j: int| 0 <= j < i implies fold(#[trigger] values[j]) != fold(values[i]) by {
                        assert(d[j] == values[j]);
                        assert(fold(d[j]) != fold(d[i]));
                    }
                }
                if first_of_fold(values, i) {
                    assert forall|j: int| 0 <= j < i implies fold(#[trigger] d[j]) != fold(d[i]) by {
                        assert(d[j] == values[j]);
                        assert(fold(values[j]) != fold(values[i]));
                    }
                }
            }
        }
        let added = !(key.len() == 0 || sd.contains(key)) && within_budget(asr_prompt_text(hd.push(v)), budget, token_budget);
        let idx = if added {
            di.push(n)
        } else {
            di
        };
        let e = if added {
            seq![v]
        } else {
            Seq::<Seq<char>>::empty()
        };
        assert(h == hd + e);
        assert(v == values[n]);
        // Positions and first occurrences.
        assert forall|k: int| 0 <= k < h.len() implies 0 <= #[trigger] idx[k] < values.len() && values[idx[k]] == h[k]
            && first_of_fold(values, idx[k]) by {
            if k < hd.len() {
                assert(idx[k] == di[k] && h[k] == hd[k]);
                assert(first_of_fold(d, di[k]));
            } else {
                assert(added);
                assert(idx[k] == n && h[k] == v);
                assert forall|j: int| 0 <= j < n implies fold(#[trigger] values[j]) != fold(values[n]) by {
                    if fold(values[j]) == key {
                        assert(fold(d[j]) == key);
                        assert(sd.contains(key));
                    }
                }
            }
        }
        assert forall|k1: int, k2: int| 0 <= k1 < k2 < h.len() implies #[trigger] idx[k1] < #[trigger] idx[k2] by {
            if k2 < hd.len() {
                assert(idx[k1] == di[k1] && idx[k2] == di[k2]);
            } else {
                assert(idx[k1] == di[k1] && idx[k2] == n);
            }
        }
        // The seen set.
        assert forall|x: Seq<char>| seen.contains(x) <==> exists|j: int|
            0 <= j < values.len() && fold(#[trigger] values[j]) == x && x.len() > 0 by {
            if seen.contains(x) && x != key {
                assert(sd.contains(x));
                let j = choose|j: int| 0 <= j < d.len() && fold(#[trigger] d[j]) == x && x.len() > 0;
                assert(values[j] == d[j]);
            }
            if seen.contains(x) && x == key {
                assert(fold(values[n]) == x);
                if key.len() == 0 {
                    assert(sd.contains(x));
                    let j = choose|j: int| 0 <= j < d.len() && fold(#[trigger] d[j]) == x && x.len() > 0;
                }
            }
            if exists|j: int| 0 <= j < values.len() && fold(#[trigger] values[j]) == x && x.len() > 0 {
                let j = choose|j: int| 0 <= j < values.len() && fold(#[trigger] values[j]) == x && x.len() > 0;
                if j < n {
                    assert(d[j] == values[j]);
                    assert(sd.contains(x));
                }
            }
        }
        // Maximality.
        assert forall|i: int|
            #[trigger] first_of_fold(values, i) && (forall|k: int| 0 <= k < h.len() ==> fold(#[trigger] h[k]) != fold(
                values[i],
            )) implies !within_budget(asr_prompt_text(h.push(values[i])), budget, token_budget) by {
            if i < n {
                assert(first_of_fold(d, i));
                assert forall|k: int| 0 <= k < hd.len() implies fold(#[trigger] hd[k]) != fold(d[i]) by {
                    assert(h[k] == hd[k]);
                }
                assert(!within_budget(asr_prompt_text(hd.push(d[i])), budget, token_budget));
                lemma_prompt_push_grows(hd, e, d[i]);
                if within_budget(asr_prompt_text(h.push(values[i])), budget, token_budget) {
                    lemma_lighter_fits(asr_prompt_text(hd.push(d[i])), asr_prompt_text(h.push(values[i])), budget, token_budget);
                }
            } else {
                assert(i == n);
                if added {
                    assert(h[hd.len() as int] == v);
                } else {
                    if sd.contains(key) {
                        let j = choose|j: int| 0 <= j < d.len() && fold(#[trigger] d[j]) == key && key.len() > 0;
                        assert(values[j] == d[j]);
                    }
                    assert(h =~= hd);
                }
            }
        }
        // Maximality against the hotwords chosen before each value.
        assert forall|i: int, m: int|
            #![trigger first_of_fold(values, i), h.take(m)]
            first_of_fold(values, i) && (forall|k: int| 0 <= k < h.len() ==> fold(#[trigger] h[k]) != fold(values[i]))
                && 0 <= m <= h.len() && (forall|k: int| 0 <= k < m ==> #[trigger] idx[k] < i) && (forall|k: int|
                m <= k < h.len() ==> #[trigger] idx[k] > i) implies !within_budget(
                asr_prompt_text(h.take(m).push(values[i])),
                budget,
                token_budget,
            ) by {
            if i < n {
                assert(first_of_fold(d, i));
                assert forall|k: int| 0 <= k < hd.len() implies fold(#[trigger] hd[k]) != fold(d[i]) by {
                    assert(h[k] == hd[k]);
                }
                if added {
                    assert(idx[hd.len() as int] == n);
                    assert(m <= hd.len());
                }
                assert(m <= hd.len());
                assert forall|k: int| 0 <= k < m implies #[trigger] di[k] < i by {
                    assert(idx[k] == di[k]);
                }
                assert forall|k: int| m <= k < hd.len() implies #[trigger] di[k] > i by {
                    assert(idx[k] == di[k]);
                }
                assert(h.take(m) =~= hd.take(m));
            } else {
                assert(i == n);
                if added {
                    assert(h[hd.len() as int] == v);
                } else {
                    if sd.contains(key) {
                        let j = choose|j: int| 0 <= j < d.len() && fold(#[trigger] d[j]) == key && key.len() > 0;
                        assert(values[j] == d[j]);
                    }
                    assert(h =~= hd);
                    if m < h.len() {
                        assert(idx[m] == di[m]);
                        assert(di[m] < n);
                    }
                    assert(h.take(m) =~= hd);
                }
            }
        }
        idx
    }
}

/// The ASR hotwords are the rows' values kept greedily in rank order: each is
/// the first value with its (non-empty) folded form, they come in the order
/// of the values, and every value that is the first with its folded form but
/// was left out (its form is no hotword's) would not fit the budgets after
/// the hotwords chosen before it, nor after all of them. The prompt lists the hotwords, and there is none without
/// hotwords.
pub proof fn lemma_asr_hotwords_greedy(rows: Seq<RowView>, budget: int, token_budget: int)
    ensures
        ({
            let values = flat_values(rows);
            let hotwords = asr_collect(values, budget, token_budget).0;
            &&& exists|idx: Seq<int>|
                idx.len() == hotwords.len() && (forall|k: int|
                    0 <= k < hotwords.len() ==> 0 <= #[trigger] idx[k] < values.len() && values[idx[k]] == hotwords[k]
                        && first_of_fold(values, idx[k])) && (forall|k1: int, k2: int|
                    0 <= k1 < k2 < hotwords.len() ==> #[trigger] idx[k1] < #[trigger] idx[k2]) && (forall|i: int, m: int|
                    #![trigger first_of_fold(values, i), hotwords.take(m)]
                    first_of_fold(values, i) && (forall|k: int|
                        0 <= k < hotwords.len() ==> fold(#[trigger] hotwords[k]) != fold(values[i])) && 0 <= m
                        <= hotwords.len() && (forall|k: int| 0 <= k < m ==> #[trigger] idx[k] < i) && (forall|k: int|
                        m <= k < hotwords.len() ==> #[trigger] idx[k] > i) ==> !within_budget(
                        asr_prompt_text(hotwords.take(m).push(values[i])),
                        budget,
                        token_budget,
                    ))
            &&& forall|i: int|
                #[trigger] first_of_fold(values, i) && (forall|k: int|
                    0 <= k < hotwords.len() ==> fold(#[trigger] hotwords[k]) != fold(values[i])) ==> !within_budget(
                    asr_prompt_text(hotwords.push(values[i])),
                    budget,
                    token_budget,
                )
            &&& asr_prompt_spec(rows, budget, token_budget) == if hotwords.len() == 0 {
                None
            } else {
                Some(asr_prompt_text(hotwords))
            }
        }),
{
    let idx = lemma_asr_collect_shape(flat_values(rows), budget, token_budget);
}

/// Builds the ASR hotword prompt from ranked rows.
pub fn build_asr_prompt(terms: &[SelectedPromptTerm], budget: usize, token_budget: usize) -> (r:
    Option<String>)
    ensures
        match r {
            Some(p) => asr_prompt_spec(rv(terms@), budget as int, token_budget as int) == Some(p@),
            None => asr_prompt_spec(rv(terms@), budget as int, token_budget as int) is None,
        },
        r matches Some(p) ==> exists|hotwords: Seq<Seq<char>>|
            p@ == asr_prompt_text(hotwords) && hotwords.len() > 0 && (forall|i: int, j: int|
                0 <= i < j < hotwords.len() ==> fold(#[trigger] hotwords[i]) != fold(#[trigger] hotwords[j]))
                && (forall|k: int| 0 <= k < hotwords.len() ==> flat_values(rv(terms@)).contains(
                #[trigger] hotwords[k],
            )),
{
    proof {
        lemma_asr_hotwords_distinct(rv(terms@), budget as int, token_budget as int);
    }
    let mut hotwords: Vec<String> = Vec::new();
    let mut seen: Vec<Vec<char>> = Vec::new();
    let ghost mut offered: Seq<Seq<char>> = Seq::empty();
    proof {
        assert(sv(hotwords@) =~= Seq::<Seq<char>>::empty());
        assert(seen@.map_values(|k: Vec<char>| k@).to_set() =~= Set::<Seq<char>>::empty());
    }
    let mut i: usize = 0;
    while i < terms.len()
        invariant
            0 <= i <= terms@.len(),
            offered == flat_values(rv(terms@).take(i as int)),
            sv(hotwords@) == asr_collect(offered, budget as int, token_budget as int).0,
            seen@.map_values(|k: Vec<char>| k@).to_set() == asr_collect(
                offered,
                budget as int,
                token_budget as int,
            ).1,
        decreases terms@.len() - i,
    {
        let values = &terms[i].values;
        let ghost vals = crate::rows::pairs_view(values@).map_values(|p: (Seq<char>, Seq<char>)| p.1);
        let ghost base = offered;
        assert(rv(terms@).take(i + 1).drop_last() =~= rv(terms@).take(i as int));
        assert(rv(terms@).take(i + 1).last() == terms@[i as int]@);
        let mut j: usize = 0;
        while j < values.len()
            invariant
                0 <= j <= values@.len(),
                vals == crate::rows::pairs_view(values@).map_values(|p: (Seq<char>, Seq<char>)| p.1),
                offered == base + vals.take(j as int),
                sv(hotwords@) == asr_collect(offered, budget as int, token_budget as int).0,
                seen@.map_values(|k: Vec<char>| k@).to_set() == asr_collect(
                    offered,
                    budget as int,
                    token_budget as int,
                ).1,
            decreases values@.len() - j,
        {
            let value = &values[j].1;
            assert(vals[j as int] == value@);
            let ghost next = offered.push(value@);
            assert(next.drop_last() =~= offered);
            let key = fold_chars_of(value.as_str());
            if key.len() > 0 && !keys_contain(&seen, key.as_slice()) {
                let ghost s0 = seen@;
                seen.push(key);
                proof {
                    let a = s0.map_values(|k: Vec<char>| k@);
                    assert(seen@.map_values(|k: Vec<char>| k@) =~= a.push(fold(value@)));
                    lemma_push_to_set(a, fold(value@));
                }
                let ghost h0 = hotwords@;
                hotwords.push(value.clone());
                let candidate = render_asr_prompt(hotwords.as_slice());
                assert(sv(hotwords@) =~= sv(h0).push(value@));
                if !within_prompt_budget(candidate.as_str(), budget, token_budget) {
                    hotwords.pop();
                    assert(hotwords@ =~= h0);
                }
            }
            proof {
                offered = next;
                assert(offered =~= base + vals.take(j + 1));
            }
            j = j + 1;
        }
        assert(vals.take(vals.len() as int) =~= vals);
        assert(offered =~= flat_values(rv(terms@).take(i + 1)));
        i = i + 1;
    }
    assert(rv(terms@).take(terms@.len() as int) =~= rv(terms@));
    if hotwords.len() == 0 {
        None
    } else {
        Some(render_asr_prompt(hotwords.as_slice()))
    }
}

// ---------------------------------------------------------------------------
// Translation prompt.
// ---------------------------------------------------------------------------

/// Number of non-empty pieces.
pub open spec fn nonempty_count(pieces: Seq<Seq<char>>) -> nat
    decreases pieces.len(),
{
    if pieces.len() == 0 {
        0
    } else {
        nonempty_count(pieces.drop_last()) + if pieces.last().len() > 0 {
            1nat
        } else {
            0nat
        }
    }
}

/// A row is useful for translation when it has values in at least two
/// columns.
pub open spec fn useful_row(r: RowView) -> bool {
    nonempty_count(split_on(r.row, ',')) >= 2
}

/// The useful rows, in order.
pub open spec fn useful_rows(rows: Seq<RowView>) -> Seq<RowView>
    decreases rows.len(),
{
    if rows.len() == 0 {
        rows
    } else if useful_row(rows.last()) {
        useful_rows(rows.drop_last()).push(rows.last())
    } else {
        useful_rows(rows.drop_last())
    }
}

/// Terminology admission: rows are offered in rank order and kept while the
/// terminology-only prompt fits the terminology share of both budgets.
pub open spec fn admit_rows(
    rows: Seq<RowView>,
    languages: Seq<Seq<char>>,
    term_budget: int,
    token_budget: int,
) -> Seq<RowView>
    decreases rows.len(),
{
    if rows.len() == 0 {
        rows
    } else {
        let kept = admit_rows(rows.drop_last(), languages, term_budget, token_budget);
        let candidate = translation_prompt_text(
            languages,
            row_texts(kept.push(rows.last())),
            Seq::empty(),
        );
        if candidate.len() > term_budget || estimated_tokens(candidate) > token_budget * 3 / 5 {
            kept
        } else {
            kept.push(rows.last())
        }
    }
}

/// History admission: turns are offered newest first and each is prepended
/// when the full prompt still fits both budgets. `turns_from(l, i)` is the
/// admitted list after offering `l[l.len()-1]` down to `l[i]`.
pub open spec fn turns_from(
    l: Seq<HistoryView>,
    i: int,
    languages: Seq<Seq<char>>,
    rows: Seq<Seq<char>>,
    budget: int,
    token_budget: int,
) -> Seq<HistoryView>
    decreases l.len() - i,
{
    if i < 0 || i >= l.len() {
        Seq::empty()
    } else {
        let kept = turns_from(l, i + 1, languages, rows, budget, token_budget);
        let candidate = seq![l[i]] + kept;
        if within_budget(translation_prompt_text(languages, rows, candidate), budget, token_budget) {
            candidate
        } else {
            kept
        }
    }
}

/// The translation prompt with the terminology rows and history turns it
/// admits. The prompt is absent when nothing was admitted or it does not fit
/// the budgets; then no rows or turns are admitted either.
pub open spec fn translation_prompt_spec(
    languages: Seq<Seq<char>>,
    rows: Seq<RowView>,
    turns: Seq<HistoryView>,
    history_limit: int,
    budget: int,
    token_budget: int,
) -> (Option<Seq<char>>, Seq<RowView>, Seq<HistoryView>) {
    let term_budget = if turns.len() == 0 {
        budget
    } else {
        budget * 3 / 5
    };
    let kept = admit_rows(useful_rows(rows), languages, term_budget, token_budget);
    let texts = row_texts(kept);
    let history = turns_from(newest(turns, history_limit), 0, languages, texts, budget, token_budget);
    let prompt = translation_prompt_text(languages, texts, history);
    if (kept.len() > 0 || history.len() > 0) && within_budget(prompt, budget, token_budget) {
        (Some(prompt), kept, history)
    } else {
        (None, Seq::empty(), Seq::empty())
    }
}

/// Counts the non-empty comma-separated pieces of a row.
fn useful_row_exec(row: &String) -> (r: bool)
    ensures
        r == (nonempty_count(split_on(row@, ',')) >= 2),
{
    let chars = chars_of(row.as_str());
    let pieces = split_chars(chars.as_slice(), ',');
    let ghost pv = split_on(row@, ',');
    let mut count: usize = 0;
    let mut i: usize = 0;
    while i < pieces.len()
        invariant
            0 <= i <= pieces@.len(),
            pieces@.len() == pv.len(),
            pv == split_on(row@, ','),
            forall|k: int| 0 <= k < pieces@.len() ==> (#[trigger] pieces@[k])@ == pv[k],
            count == nonempty_count(pv.take(i as int)),
            count <= i,
        decreases pieces@.len() - i,
    {
        assert(pv.take(i + 1).drop_last() =~= pv.take(i as int));
        assert(pv.take(i + 1).last() == pieces@[i as int]@);
        if pieces[i].len() > 0 {
            count = count + 1;
        }
        i = i + 1;
    }
    assert(pv.take(pv.len() as int) =~= pv);
    count >= 2
}

/// Every translation prompt fits its budgets, and nothing is admitted
/// without a prompt.
pub proof fn lemma_translation_prompt_within_budget(
    languages: Seq<Seq<char>>,
    rows: Seq<RowView>,
    turns: Seq<HistoryView>,
    history_limit: int,
    budget: int,
    token_budget: int,
)
    ensures
        ({
            let (p, kept, history) = translation_prompt_spec(
                languages,
                rows,
                turns,
                history_limit,
                budget,
                token_budget,
            );
            &&& p matches Some(text) ==> within_budget(text, budget, token_budget)
            &&& p is None ==> kept.len() == 0 && history.len() == 0
        }),
{
}

/// Builds the translation prompt and reports what it admitted.
pub fn build_translation_prompt(
    languages: &[String],
    terms: &[SelectedPromptTerm],
    turns: &[HistoryTurn],
    history_limit: usize,
    budget: usize,
    token_budget: usize,
) -> (r: (Option<String>, Vec<SelectedPromptTerm>, Vec<HistoryTurn>))
    ensures
        ({
            let (p, kept, history) = translation_prompt_spec(
                sv(languages@),
                rv(terms@),
                hv(turns@),
                history_limit as int,
                budget as int,
                token_budget as int,
            );
            &&& match r.0 {
                Some(text) => p == Some(text@),
                None => p is None,
            }
            &&& rv(r.1@) == kept
            &&& hv(r.2@) == history
        }),
{
    let ghost langs = sv(languages@);
    // Useful rows.
    let mut useful: Vec<SelectedPromptTerm> = Vec::new();
    let mut i: usize = 0;
    while i < terms.len()
        invariant
            0 <= i <= terms@.len(),
            rv(useful@) == useful_rows(rv(terms@).take(i as int)),
        decreases terms@.len() - i,
    {
        assert(rv(terms@).take(i + 1).drop_last() =~= rv(terms@).take(i as int));
        assert(rv(terms@).take(i + 1).last() == terms@[i as int]@);
        if useful_row_exec(&terms[i].row) {
            let ghost before = useful@;
            useful.push(terms[i].clone());
            assert(rv(useful@) =~= rv(before).push(terms@[i as int]@));
        }
        i = i + 1;
    }
    assert(rv(terms@).take(terms@.len() as int) =~= rv(terms@));
    let term_budget: u128 = if turns.len() == 0 {
        budget as u128
    } else {
        (budget as u128) * 3 / 5
    };
    let token_share: u128 = (token_budget as u128) * 3 / 5;
    let ghost tb: int = if turns@.len() == 0 {
        budget as int
    } else {
        budget * 3 / 5
    };
    // Terminology admission.
    let empty_turns: Vec<HistoryTurn> = Vec::new();
    let mut selected: Vec<SelectedPromptTerm> = Vec::new();
    let mut k: usize = 0;
    while k < useful.len()
        invariant
            0 <= k <= useful@.len(),
            langs == sv(languages@),
            empty_turns@.len() == 0,
            term_budget == tb,
            token_share == token_budget * 3 / 5,
            rv(selected@) == admit_rows(rv(useful@).take(k as int), langs, tb, token_budget as int),
        decreases useful@.len() - k,
    {
        assert(rv(useful@).take(k + 1).drop_last() =~= rv(useful@).take(k as int));
        assert(rv(useful@).take(k + 1).last() == useful@[k as int]@);
        let ghost before = selected@;
        selected.push(useful[k].clone());
        assert(rv(selected@) =~= rv(before).push(useful@[k as int]@));
        let rows = row_strings(selected.as_slice());
        let candidate = render_translation_prompt(languages, rows.as_slice(), empty_turns.as_slice());
        assert(hv(empty_turns@) =~= Seq::<HistoryView>::empty());
        let len = chars_of(candidate.as_str()).len();
        let tokens = estimated_prompt_tokens(candidate.as_str());
        if (len as u128) > term_budget || (tokens as u128) > token_share {
            selected.pop();
            assert(selected@ =~= before);
        }
        k = k + 1;
    }
    assert(rv(useful@).take(useful@.len() as int) =~= rv(useful@));
    let rows = row_strings(selected.as_slice());
    let ghost texts = row_texts(rv(selected@));
    // History admission, newest first.
    let recent = newest_turns(turns, history_limit);
    let ghost l = hv(recent@);
    let mut chosen: Vec<HistoryTurn> = Vec::new();
    let mut m: usize = recent.len();
    proof {
        assert(hv(chosen@) =~= Seq::<HistoryView>::empty());
    }
    while m > 0
        invariant
            0 <= m <= recent@.len(),
            l == hv(recent@),
            langs == sv(languages@),
            sv(rows@) == texts,
            hv(chosen@) == turns_from(l, m as int, langs, texts, budget as int, token_budget as int),
        decreases m,
    {
        let idx = m - 1;
        let mut candidate_turns: Vec<HistoryTurn> = Vec::new();
        candidate_turns.push(recent[idx].clone());
        let mut q: usize = 0;
        while q < chosen.len()
            invariant
                0 <= q <= chosen@.len(),
                hv(candidate_turns@) == seq![l[idx as int]] + hv(chosen@).take(q as int),
            decreases chosen@.len() - q,
        {
            let ghost before = candidate_turns@;
            candidate_turns.push(chosen[q].clone());
            assert(hv(candidate_turns@) =~= hv(before).push(chosen@[q as int]@));
            assert(hv(chosen@).take(q + 1) =~= hv(chosen@).take(q as int).push(chosen@[q as int]@));
            q = q + 1;
        }
        assert(hv(chosen@).take(chosen@.len() as int) =~= hv(chosen@));
        let candidate = render_translation_prompt(languages, rows.as_slice(), candidate_turns.as_slice());
        if within_prompt_budget(candidate.as_str(), budget, token_budget) {
            chosen = candidate_turns;
        }
        m = m - 1;
    }
    let prompt = render_translation_prompt(languages, rows.as_slice(), chosen.as_slice());
    if (selected.len() > 0 || chosen.len() > 0) && within_prompt_budget(
        prompt.as_str(),
        budget,
        token_budget,
    ) {
        (Some(prompt), selected, chosen)
    } else {
        (None, Vec::new(), Vec::new())
    }
}

} // verus!
