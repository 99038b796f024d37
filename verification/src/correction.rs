//! Recognition corrections: trigger aliases that stand for an authoritative
//! term of the same corpus, and where they occur in recognized text.

use vstd::prelude::*;

use crate::corpus::{CorpusDefinition, CorpusTerm, DefinitionView, terms_view};
use crate::fold::{fold, fold_chars_of, fold_for_match};
use crate::language::strings_contain;
use crate::prompt::{join, join_strings, lemma_push_to_set, sv};
use crate::protocol::{CorpusTermSource, SourceView, sources_view};
use crate::rows::{clone_pairs, pairs_view, source_for, source_of};
use crate::select::{task_term_values, task_values, terms_overlap, terms_overlap_spec};
use crate::selection::{SelectedCorpus, SelectedView, cv, list_pairs};
use crate::dialogue::opt_view;
use crate::fold::{byte_offsets, term_spans, term_spans_spec};
use crate::matching::fits_u32;
use crate::protocol::{CorpusRecognitionCorrection, CorrectionView};
use crate::rows::clone_sources;
use crate::text::{
    append_str, chars_eq, chars_eq_ignore_ascii_case, chars_of, eq_ignore_ascii_case, is_blank,
    is_blank_chars, str_eq, utf8_len,
};

verus! {

broadcast use vstd::string::group_string_axioms;

/// An authoritative term with the task-language alias values that should be
/// corrected to it.
#[derive(Debug)]
pub struct RecognitionCorrectionTerm {
    pub canonical: Vec<(String, String)>,
    pub aliases: Vec<(String, String)>,
    pub sources: Vec<CorpusTermSource>,
}

/// The mathematical content of a correction term.
pub struct CorrectionTermView {
    pub canonical: Seq<(Seq<char>, Seq<char>)>,
    pub aliases: Seq<(Seq<char>, Seq<char>)>,
    pub sources: Seq<SourceView>,
}

impl View for RecognitionCorrectionTerm {
    type V = CorrectionTermView;

    open spec fn view(&self) -> CorrectionTermView {
        CorrectionTermView {
            canonical: pairs_view(self.canonical@),
            aliases: pairs_view(self.aliases@),
            sources: sources_view(self.sources@),
        }
    }
}

/// The views of a list of correction terms.
pub open spec fn ctv(v: Seq<RecognitionCorrectionTerm>) -> Seq<CorrectionTermView> {
    v.map_values(|t: RecognitionCorrectionTerm| t@)
}

/// Whether two strings are equal after folding.
pub fn values_equal(left: &str, right: &str) -> (r: bool)
    ensures
        r == (fold(left@) == fold(right@)),
{
    let a = fold_chars_of(left);
    let b = fold_chars_of(right);
    chars_eq(a.as_slice(), b.as_slice())
}

/// The index of the first term at or after `k` that overlaps `alias`.
pub open spec fn first_overlap_from(terms: Seq<Seq<Seq<char>>>, alias: Seq<Seq<char>>, k: int) -> Option<
    int,
>
    decreases terms.len() - k,
{
    if k < 0 || k >= terms.len() {
        None
    } else if terms_overlap_spec(alias, terms[k]) {
        Some(k)
    } else {
        first_overlap_from(terms, alias, k + 1)
    }
}

/// Finds the first term overlapping `alias`.
fn first_overlapping_term(terms: &Vec<CorpusTerm>, alias: &CorpusTerm) -> (r: Option<usize>)
    ensures
        match r {
            Some(i) => i < terms@.len() && first_overlap_from(terms_view(terms@), alias@, 0) == Some(
                i as int,
            ),
            None => first_overlap_from(terms_view(terms@), alias@, 0) is None,
        },
{
    let ghost tv = terms_view(terms@);
    let mut i: usize = 0;
    while i < terms.len()
        invariant
            0 <= i <= terms@.len(),
            tv == terms_view(terms@),
            first_overlap_from(tv, alias@, 0) == first_overlap_from(tv, alias@, i as int),
        decreases terms@.len() - i,
    {
        assert(tv[i as int] == terms@[i as int]@);
        if terms_overlap(alias, &terms[i]) {
            return Some(i);
        }
        i = i + 1;
    }
    None
}

/// Whether `canonical` has a value in `pair`'s language equal to `pair`'s
/// value after folding.
pub open spec fn has_same_value(
    canonical: Seq<(Seq<char>, Seq<char>)>,
    pair: (Seq<char>, Seq<char>),
) -> bool {
    exists|j: int|
        #![trigger canonical[j]]
        0 <= j < canonical.len() && canonical[j].0 == pair.0 && fold(canonical[j].1) == fold(pair.1)
}

/// The alias values that differ from every canonical value of their language.
pub open spec fn distinct_aliases(
    aliases: Seq<(Seq<char>, Seq<char>)>,
    canonical: Seq<(Seq<char>, Seq<char>)>,
) -> Seq<(Seq<char>, Seq<char>)>
    decreases aliases.len(),
{
    if aliases.len() == 0 {
        Seq::empty()
    } else if has_same_value(canonical, aliases.last()) {
        distinct_aliases(aliases.drop_last(), canonical)
    } else {
        distinct_aliases(aliases.drop_last(), canonical).push(aliases.last())
    }
}

fn has_same_value_exec(canonical: &Vec<(String, String)>, pair: &(String, String)) -> (r: bool)
    ensures
        r == has_same_value(pairs_view(canonical@), (pair.0@, pair.1@)),
{
    let ghost cv = pairs_view(canonical@);
    let mut j: usize = 0;
    while j < canonical.len()
        invariant
            0 <= j <= canonical@.len(),
            cv == pairs_view(canonical@),
            forall|k: int|
                #![trigger cv[k]]
                0 <= k < j ==> !(cv[k].0 == pair.0@ && fold(cv[k].1) == fold(pair.1@)),
        decreases canonical@.len() - j,
    {
        assert(cv[j as int] == (canonical@[j as int].0@, canonical@[j as int].1@));
        if str_eq(canonical[j].0.as_str(), pair.0.as_str()) && values_equal(
            canonical[j].1.as_str(),
            pair.1.as_str(),
        ) {
            return true;
        }
        j = j + 1;
    }
    false
}

fn distinct_alias_values(aliases: &Vec<(String, String)>, canonical: &Vec<(String, String)>) -> (r:
    Vec<(String, String)>)
    ensures
        pairs_view(r@) == distinct_aliases(pairs_view(aliases@), pairs_view(canonical@)),
{
    let ghost av = pairs_view(aliases@);
    let mut r: Vec<(String, String)> = Vec::new();
    let mut i: usize = 0;
    while i < aliases.len()
        invariant
            0 <= i <= aliases@.len(),
            av == pairs_view(aliases@),
            pairs_view(r@) == distinct_aliases(av.take(i as int), pairs_view(canonical@)),
        decreases aliases@.len() - i,
    {
        assert(av.take(i + 1).drop_last() =~= av.take(i as int));
        assert(av.take(i + 1).last() == (aliases@[i as int].0@, aliases@[i as int].1@));
        if !has_same_value_exec(canonical, &aliases[i]) {
            let ghost before = r@;
            r.push((aliases[i].0.clone(), aliases[i].1.clone()));
            assert(pairs_view(r@) =~= pairs_view(before).push(av[i as int]));
        }
        i = i + 1;
    }
    assert(av.take(aliases@.len() as int) =~= av);
    r
}

/// One part of a correction key: the language, a colon and the folded value.
pub open spec fn key_part(p: (Seq<char>, Seq<char>)) -> Seq<char> {
    p.0 + ":"@ + fold(p.1)
}

/// The key that deduplicates correction rows of a corpus.
pub open spec fn correction_key(id: Seq<char>, parts: Seq<(Seq<char>, Seq<char>)>) -> Seq<char> {
    id + ":"@ + join(parts.map_values(|p: (Seq<char>, Seq<char>)| key_part(p)), "\u{1f}"@)
}

/// Appends the key parts of a list of pairs.
fn push_key_parts(parts: &mut Vec<String>, pairs: &Vec<(String, String)>)
    ensures
        sv(final(parts)@) == sv(old(parts)@) + pairs_view(pairs@).map_values(
            |p: (Seq<char>, Seq<char>)| key_part(p),
        ),
{
    let ghost start = sv(parts@);
    let ghost pv = pairs_view(pairs@);
    let mut i: usize = 0;
    while i < pairs.len()
        invariant
            0 <= i <= pairs@.len(),
            pv == pairs_view(pairs@),
            sv(parts@) == start + pv.take(i as int).map_values(|p: (Seq<char>, Seq<char>)| key_part(p)),
        decreases pairs@.len() - i,
    {
        assert(pv[i as int] == (pairs@[i as int].0@, pairs@[i as int].1@));
        let mut part = pairs[i].0.clone();
        append_str(&mut part, ":");
        let folded = fold_for_match(pairs[i].1.as_str());
        append_str(&mut part, folded.as_str());
        let ghost before = parts@;
        parts.push(part);
        assert(sv(parts@) =~= sv(before).push(key_part(pv[i as int])));
        assert(pv.take(i + 1).map_values(|p: (Seq<char>, Seq<char>)| key_part(p)) =~= pv.take(
            i as int,
        ).map_values(|p: (Seq<char>, Seq<char>)| key_part(p)).push(key_part(pv[i as int])));
        i = i + 1;
    }
    assert(pv.take(pairs@.len() as int) =~= pv);
}

fn correction_key_string(id: &str, canonical: &Vec<(String, String)>, aliases: &Vec<(String, String)>) -> (r:
    String)
    ensures
        r@ == correction_key(id@, pairs_view(canonical@) + pairs_view(aliases@)),
{
    let mut parts: Vec<String> = Vec::new();
    push_key_parts(&mut parts, canonical);
    push_key_parts(&mut parts, aliases);
    proof {
        let f = |p: (Seq<char>, Seq<char>)| key_part(p);
        assert(sv(parts@) =~= (pairs_view(canonical@) + pairs_view(aliases@)).map_values(f));
    }
    let joined = join_strings(parts.as_slice(), "\u{1f}");
    let mut key = id.to_string();
    append_str(&mut key, ":");
    append_str(&mut key, joined.as_str());
    key
}

/// The correction row an alias of a corpus yields, with its key: the first
/// term of the corpus that overlaps the alias is the canonical form, and
/// the alias's task-language values that differ from it are corrected.
pub open spec fn alias_row(d: DefinitionView, alias: Seq<Seq<char>>, languages: Seq<Seq<char>>) -> Option<
    (CorrectionTermView, Seq<char>),
> {
    match first_overlap_from(d.terms, alias, 0) {
        None => None,
        Some(i) => {
            let canonical = task_values(d.terms[i], languages);
            let aliases = distinct_aliases(task_values(alias, languages), canonical);
            if aliases.len() == 0 {
                None
            } else {
                Some(
                    (
                        CorrectionTermView { canonical, aliases, sources: seq![source_of(d)] },
                        correction_key(d.id, canonical + aliases),
                    ),
                )
            }
        },
    }
}

/// Correction rows of `(corpus, alias)` pairs offered in order, with the keys
/// seen; a row whose key was seen is dropped.
pub open spec fn correction_rows_from(
    pairs: Seq<(DefinitionView, Seq<Seq<char>>)>,
    languages: Seq<Seq<char>>,
) -> (Seq<CorrectionTermView>, Set<Seq<char>>)
    decreases pairs.len(),
{
    if pairs.len() == 0 {
        (Seq::empty(), Set::empty())
    } else {
        let (rows, seen) = correction_rows_from(pairs.drop_last(), languages);
        match alias_row(pairs.last().0, pairs.last().1, languages) {
            Some((row, key)) => if seen.contains(key) {
                (rows, seen)
            } else {
                (rows.push(row), seen.insert(key))
            },
            None => (rows, seen),
        }
    }
}

/// `(corpus, alias)` pairs of the trigger aliases of every corpus.
pub open spec fn alias_pairs(cs: Seq<SelectedView>) -> Seq<(DefinitionView, Seq<Seq<char>>)>
    decreases cs.len(),
{
    if cs.len() == 0 {
        Seq::empty()
    } else {
        alias_pairs(cs.drop_last()) + list_pairs(
            cs.last().definition,
            cs.last().definition.trigger_aliases,
        )
    }
}

/// The correction rows of the selected corpora.
pub open spec fn correction_rows_spec(cs: Seq<SelectedView>, languages: Seq<Seq<char>>) -> Seq<
    CorrectionTermView,
> {
    correction_rows_from(alias_pairs(cs), languages).0
}

/// Offers one alias of a corpus.
fn offer_alias(
    rows: &mut Vec<RecognitionCorrectionTerm>,
    seen: &mut Vec<String>,
    d: &CorpusDefinition,
    alias: &CorpusTerm,
    languages: &[String],
    Ghost(offered): Ghost<Seq<(DefinitionView, Seq<Seq<char>>)>>,
)
    requires
        ctv(old(rows)@) == correction_rows_from(offered, sv(languages@)).0,
        sv(old(seen)@).to_set() == correction_rows_from(offered, sv(languages@)).1,
    ensures
        ctv(final(rows)@) == correction_rows_from(offered.push((d@, alias@)), sv(languages@)).0,
        sv(final(seen)@).to_set() == correction_rows_from(offered.push((d@, alias@)), sv(languages@)).1,
{
    assert(offered.push((d@, alias@)).drop_last() =~= offered);
    match first_overlapping_term(&d.terms, alias) {
        None => {},
        Some(idx) => {
            assert(d@.terms[idx as int] == d.terms@[idx as int]@);
            let canonical = task_term_values(&d.terms[idx], languages);
            let alias_values = task_term_values(alias, languages);
            let aliases = distinct_alias_values(&alias_values, &canonical);
            if aliases.len() == 0 {
                return ;
            }
            let key = correction_key_string(d.id.as_str(), &canonical, &aliases);
            if strings_contain(seen, key.as_str()) {
                return ;
            }
            let ghost s0 = sv(seen@);
            seen.push(key);
            proof {
                assert(sv(seen@) =~= s0.push(key@));
                lemma_push_to_set(s0, key@);
            }
            let mut sources: Vec<CorpusTermSource> = Vec::new();
            sources.push(source_for(d));
            let ghost before = rows@;
            let row = RecognitionCorrectionTerm { canonical, aliases, sources };
            proof {
                assert(sources_view(row.sources@) =~= seq![source_of(d@)]);
            }
            rows.push(row);
            assert(ctv(rows@) =~= ctv(before).push(row@));
        },
    }
}

/// The correction rows of the selected corpora (see `correction_rows_spec`).
pub fn selected_recognition_correction_rows(corpora: &Vec<SelectedCorpus>, languages: &[String]) -> (r:
    Vec<RecognitionCorrectionTerm>)
    ensures
        ctv(r@) == correction_rows_spec(cv(corpora@), sv(languages@)),
{
    let ghost cs = cv(corpora@);
    let mut rows: Vec<RecognitionCorrectionTerm> = Vec::new();
    let mut seen: Vec<String> = Vec::new();
    let ghost mut offered: Seq<(DefinitionView, Seq<Seq<char>>)> = Seq::empty();
    proof {
        assert(ctv(rows@) =~= Seq::<CorrectionTermView>::empty());
        assert(sv(seen@).to_set() =~= Set::<Seq<char>>::empty());
    }
    let mut i: usize = 0;
    while i < corpora.len()
        invariant
            0 <= i <= corpora@.len(),
            cs == cv(corpora@),
            offered == alias_pairs(cs.take(i as int)),
            ctv(rows@) == correction_rows_from(offered, sv(languages@)).0,
            sv(seen@).to_set() == correction_rows_from(offered, sv(languages@)).1,
        decreases corpora@.len() - i,
    {
        assert(cs.take(i + 1).drop_last() =~= cs.take(i as int));
        assert(cs.take(i + 1).last() == corpora@[i as int]@);
        let d = &corpora[i].definition;
        let ghost start = offered;
        let mut j: usize = 0;
        while j < d.trigger_aliases.len()
            invariant
                0 <= j <= d.trigger_aliases@.len(),
                offered == start + list_pairs(d@, terms_view(d.trigger_aliases@).take(j as int)),
                ctv(rows@) == correction_rows_from(offered, sv(languages@)).0,
                sv(seen@).to_set() == correction_rows_from(offered, sv(languages@)).1,
            decreases d.trigger_aliases@.len() - j,
        {
            offer_alias(&mut rows, &mut seen, d, &d.trigger_aliases[j], languages, Ghost(offered));
            proof {
                offered = offered.push((d@, d.trigger_aliases@[j as int]@));
                assert(offered =~= start + list_pairs(d@, terms_view(d.trigger_aliases@).take(j + 1)));
            }
            j = j + 1;
        }
        assert(terms_view(d.trigger_aliases@).take(d.trigger_aliases@.len() as int) =~= terms_view(
            d.trigger_aliases@,
        ));
        assert(d@.trigger_aliases == terms_view(d.trigger_aliases@));
        i = i + 1;
    }
    assert(cs.take(corpora@.len() as int) =~= cs);
    rows
}

// ---------------------------------------------------------------------------
// Corrections found in text.
// ---------------------------------------------------------------------------

/// The first canonical value at or after `k` in the alias's language that
/// differs from the alias.
pub open spec fn same_language_target_from(
    canonical: Seq<(Seq<char>, Seq<char>)>,
    language: Seq<char>,
    alias: Seq<char>,
    k: int,
) -> Option<Seq<char>>
    decreases canonical.len() - k,
{
    if k < 0 || k >= canonical.len() {
        None
    } else if canonical[k].0 == language && canonical[k].1 != alias {
        Some(canonical[k].1)
    } else {
        same_language_target_from(canonical, language, alias, k + 1)
    }
}

/// The first non-blank canonical value at or after `k` that differs from
/// the alias ignoring ASCII case.
pub open spec fn other_target_from(canonical: Seq<(Seq<char>, Seq<char>)>, alias: Seq<char>, k: int) -> Option<
    Seq<char>,
>
    decreases canonical.len() - k,
{
    if k < 0 || k >= canonical.len() {
        None
    } else if !is_blank(canonical[k].1) && !eq_ignore_ascii_case(canonical[k].1, alias) {
        Some(canonical[k].1)
    } else {
        other_target_from(canonical, alias, k + 1)
    }
}

/// What an alias value is corrected to: the canonical value of its language,
/// else another canonical value; nothing when that is blank or equals the
/// alias ignoring ASCII case.
pub open spec fn correction_target(
    canonical: Seq<(Seq<char>, Seq<char>)>,
    language: Seq<char>,
    alias: Seq<char>,
) -> Option<Seq<char>> {
    let found = match same_language_target_from(canonical, language, alias, 0) {
        Some(v) => Some(v),
        None => other_target_from(canonical, alias, 0),
    };
    match found {
        Some(v) => if is_blank(v) || eq_ignore_ascii_case(v, alias) {
            None
        } else {
            Some(v)
        },
        None => None,
    }
}

/// Whether position `k` holds the first canonical value in `language` that
/// differs from `alias`.
pub open spec fn first_in_language(
    canonical: Seq<(Seq<char>, Seq<char>)>,
    language: Seq<char>,
    alias: Seq<char>,
    k: int,
) -> bool {
    &&& 0 <= k < canonical.len()
    &&& canonical[k].0 == language && canonical[k].1 != alias
    &&& forall|j: int| 0 <= j < k ==> !(#[trigger] canonical[j].0 == language && canonical[j].1 != alias)
}

/// Whether position `k` holds the first canonical value that is not blank
/// and differs from `alias` ignoring ASCII case.
pub open spec fn first_other(canonical: Seq<(Seq<char>, Seq<char>)>, alias: Seq<char>, k: int) -> bool {
    &&& 0 <= k < canonical.len()
    &&& !is_blank(canonical[k].1) && !eq_ignore_ascii_case(canonical[k].1, alias)
    &&& forall|j: int| 0 <= j < k ==> is_blank(#[trigger] canonical[j].1) || eq_ignore_ascii_case(canonical[j].1, alias)
}

proof fn lemma_other_first(canonical: Seq<(Seq<char>, Seq<char>)>, alias: Seq<char>, k: int, from: int)
    requires
        0 <= from <= k,
        first_other(canonical, alias, k),
    ensures
        other_target_from(canonical, alias, from) == Some(canonical[k].1),
    decreases k - from,
{
    if from < k {
        assert(is_blank(canonical[from].1) || eq_ignore_ascii_case(canonical[from].1, alias));
        lemma_other_first(canonical, alias, k, from + 1);
    }
}

proof fn lemma_other_none(canonical: Seq<(Seq<char>, Seq<char>)>, alias: Seq<char>, from: int)
    requires
        0 <= from,
        forall|j: int| from <= j < canonical.len() ==> is_blank(#[trigger] canonical[j].1) || eq_ignore_ascii_case(
            canonical[j].1,
            alias,
        ),
    ensures
        other_target_from(canonical, alias, from) is None,
    decreases canonical.len() - from,
{
    if from < canonical.len() {
        lemma_other_none(canonical, alias, from + 1);
    }
}

/// Without a differing canonical value in the alias's language, an alias is
/// corrected to the first canonical value that is not blank and differs from
/// it ignoring ASCII case, and not at all when there is none.
pub proof fn lemma_correction_target_fallback(
    canonical: Seq<(Seq<char>, Seq<char>)>,
    language: Seq<char>,
    alias: Seq<char>,
    k: int,
)
    requires
        forall|j: int| 0 <= j < canonical.len() ==> !(#[trigger] canonical[j].0 == language && canonical[j].1 != alias),
    ensures
        first_other(canonical, alias, k) ==> correction_target(canonical, language, alias) == Some(canonical[k].1),
        (forall|j: int| 0 <= j < canonical.len() ==> is_blank(#[trigger] canonical[j].1) || eq_ignore_ascii_case(
            canonical[j].1,
            alias,
        )) ==> correction_target(canonical, language, alias) is None,
{
    lemma_same_language_none(canonical, language, alias, 0);
    if first_other(canonical, alias, k) {
        lemma_other_first(canonical, alias, k, 0);
    }
    if forall|j: int| 0 <= j < canonical.len() ==> is_blank(#[trigger] canonical[j].1) || eq_ignore_ascii_case(
        canonical[j].1,
        alias,
    ) {
        lemma_other_none(canonical, alias, 0);
    }
}

proof fn lemma_same_language_first(
    canonical: Seq<(Seq<char>, Seq<char>)>,
    language: Seq<char>,
    alias: Seq<char>,
    k: int,
    from: int,
)
    requires
        0 <= from <= k,
        first_in_language(canonical, language, alias, k),
    ensures
        same_language_target_from(canonical, language, alias, from) == Some(canonical[k].1),
    decreases k - from,
{
    if from < k {
        assert(!(canonical[from].0 == language && canonical[from].1 != alias));
        lemma_same_language_first(canonical, language, alias, k, from + 1);
    }
}

proof fn lemma_same_language_none(
    canonical: Seq<(Seq<char>, Seq<char>)>,
    language: Seq<char>,
    alias: Seq<char>,
    from: int,
)
    requires
        0 <= from,
        forall|j: int| from <= j < canonical.len() ==> !(#[trigger] canonical[j].0 == language && canonical[j].1 != alias),
    ensures
        same_language_target_from(canonical, language, alias, from) is None,
    decreases canonical.len() - from,
{
    if from < canonical.len() {
        lemma_same_language_none(canonical, language, alias, from + 1);
    }
}

proof fn lemma_other_target_found(canonical: Seq<(Seq<char>, Seq<char>)>, alias: Seq<char>, from: int)
    requires
        0 <= from,
    ensures
        other_target_from(canonical, alias, from) matches Some(v) ==> exists|k: int|
            from <= k < canonical.len() && #[trigger] canonical[k].1 == v && !is_blank(v)
                && !eq_ignore_ascii_case(v, alias),
    decreases canonical.len() - from,
{
    if from < canonical.len() {
        lemma_other_target_found(canonical, alias, from + 1);
    }
}

/// An alias is corrected to the first canonical value in its own language
/// that differs from it, unless that value is blank or equals the alias
/// ignoring ASCII case; with no such value in its language, it is corrected
/// to some non-blank canonical value that differs from it ignoring ASCII case,
/// or not at all. Whatever it is corrected to is a canonical value, not blank
/// and not the alias ignoring ASCII case.
pub proof fn lemma_correction_target_language(
    canonical: Seq<(Seq<char>, Seq<char>)>,
    language: Seq<char>,
    alias: Seq<char>,
    k: int,
)
    ensures
        first_in_language(canonical, language, alias, k) ==> correction_target(canonical, language, alias) == (
        if is_blank(canonical[k].1) || eq_ignore_ascii_case(canonical[k].1, alias) {
            None
        } else {
            Some(canonical[k].1)
        }),
        correction_target(canonical, language, alias) matches Some(v) ==> !is_blank(v) && !eq_ignore_ascii_case(
            v,
            alias,
        ) && exists|j: int| 0 <= j < canonical.len() && #[trigger] canonical[j].1 == v,
        (forall|j: int| 0 <= j < canonical.len() ==> !(#[trigger] canonical[j].0 == language && canonical[j].1 != alias))
            ==> correction_target(canonical, language, alias) == other_target_from(canonical, alias, 0),
{
    if first_in_language(canonical, language, alias, k) {
        lemma_same_language_first(canonical, language, alias, k, 0);
    }
    if forall|j: int| 0 <= j < canonical.len() ==> !(#[trigger] canonical[j].0 == language && canonical[j].1 != alias) {
        lemma_same_language_none(canonical, language, alias, 0);
        lemma_other_target_found(canonical, alias, 0);
    }
    lemma_same_language_found(canonical, language, alias, 0);
    lemma_other_target_found(canonical, alias, 0);
}

proof fn lemma_same_language_found(
    canonical: Seq<(Seq<char>, Seq<char>)>,
    language: Seq<char>,
    alias: Seq<char>,
    from: int,
)
    requires
        0 <= from,
    ensures
        same_language_target_from(canonical, language, alias, from) matches Some(v) ==> exists|k: int|
            from <= k < canonical.len() && #[trigger] canonical[k].1 == v,
    decreases canonical.len() - from,
{
    if from < canonical.len() {
        lemma_same_language_found(canonical, language, alias, from + 1);
    }
}

fn same_language_target(canonical: &Vec<(String, String)>, language: &str, alias: &str) -> (r:
    Option<String>)
    ensures
        opt_view(r) == same_language_target_from(pairs_view(canonical@), language@, alias@, 0),
{
    let ghost cv = pairs_view(canonical@);
    let mut k: usize = 0;
    while k < canonical.len()
        invariant
            0 <= k <= canonical@.len(),
            cv == pairs_view(canonical@),
            same_language_target_from(cv, language@, alias@, 0) == same_language_target_from(
                cv,
                language@,
                alias@,
                k as int,
            ),
        decreases canonical@.len() - k,
    {
        assert(cv[k as int] == (canonical@[k as int].0@, canonical@[k as int].1@));
        if str_eq(canonical[k].0.as_str(), language) && !str_eq(canonical[k].1.as_str(), alias) {
            return Some(canonical[k].1.clone());
        }
        k = k + 1;
    }
    None
}

fn other_target(canonical: &Vec<(String, String)>, alias: &[char]) -> (r: Option<String>)
    ensures
        opt_view(r) == other_target_from(pairs_view(canonical@), alias@, 0),
{
    let ghost cv = pairs_view(canonical@);
    let mut j: usize = 0;
    while j < canonical.len()
        invariant
            0 <= j <= canonical@.len(),
            cv == pairs_view(canonical@),
            other_target_from(cv, alias@, 0) == other_target_from(cv, alias@, j as int),
        decreases canonical@.len() - j,
    {
        assert(cv[j as int] == (canonical@[j as int].0@, canonical@[j as int].1@));
        let value = chars_of(canonical[j].1.as_str());
        if !is_blank_chars(value.as_slice()) && !chars_eq_ignore_ascii_case(value.as_slice(), alias) {
            return Some(canonical[j].1.clone());
        }
        j = j + 1;
    }
    None
}

/// Computes `correction_target`.
fn correction_target_exec(canonical: &Vec<(String, String)>, language: &str, alias: &str) -> (r:
    Option<String>)
    ensures
        opt_view(r) == correction_target(pairs_view(canonical@), language@, alias@),
        forall|k: int|
            #[trigger] first_in_language(pairs_view(canonical@), language@, alias@, k) ==> opt_view(r) == (if is_blank(
                pairs_view(canonical@)[k].1,
            ) || eq_ignore_ascii_case(pairs_view(canonical@)[k].1, alias@) {
                None
            } else {
                Some(pairs_view(canonical@)[k].1)
            }),
        r matches Some(v) ==> !is_blank(v@) && !eq_ignore_ascii_case(v@, alias@),
        (forall|j: int|
            0 <= j < canonical@.len() ==> !(#[trigger] pairs_view(canonical@)[j].0 == language@ && pairs_view(
                canonical@,
            )[j].1 != alias@)) ==> forall|k: int| #[trigger]
            first_other(pairs_view(canonical@), alias@, k) ==> opt_view(r) == Some(pairs_view(canonical@)[k].1),
{
    proof {
        if forall|j: int|
            0 <= j < canonical@.len() ==> !(#[trigger] pairs_view(canonical@)[j].0 == language@ && pairs_view(
                canonical@,
            )[j].1 != alias@) {
            assert forall|k: int| #[trigger] first_other(pairs_view(canonical@), alias@, k) implies correction_target(
                pairs_view(canonical@),
                language@,
                alias@,
            ) == Some(pairs_view(canonical@)[k].1) by {
                lemma_correction_target_fallback(pairs_view(canonical@), language@, alias@, k);
            }
        }
        assert forall|k: int| #[trigger] first_in_language(pairs_view(canonical@), language@, alias@, k) implies correction_target(
            pairs_view(canonical@),
            language@,
            alias@,
        ) == (if is_blank(pairs_view(canonical@)[k].1) || eq_ignore_ascii_case(pairs_view(canonical@)[k].1, alias@) {
            None
        } else {
            Some(pairs_view(canonical@)[k].1)
        }) by {
            lemma_correction_target_language(pairs_view(canonical@), language@, alias@, k);
        }
        lemma_correction_target_language(pairs_view(canonical@), language@, alias@, 0);
    }
    let alias_chars = chars_of(alias);
    let found = match same_language_target(canonical, language, alias) {
        Some(v) => Some(v),
        None => other_target(canonical, alias_chars.as_slice()),
    };
    match found {
        Some(v) => {
            let value = chars_of(v.as_str());
            if is_blank_chars(value.as_slice()) || chars_eq_ignore_ascii_case(
                value.as_slice(),
                alias_chars.as_slice(),
            ) {
                None
            } else {
                Some(v)
            }
        },
        None => None,
    }
}

/// The correction for one original character span, with byte offsets;
/// absent when an offset does not fit a `u32`.
pub open spec fn span_correction(
    t: Seq<char>,
    span: (int, int),
    target: Seq<char>,
    sources: Seq<SourceView>,
) -> Option<CorrectionView> {
    let bs = utf8_len(t.take(span.0));
    let be = utf8_len(t.take(span.1));
    if 0 <= span.0 <= span.1 <= t.len() && fits_u32(bs as int) && fits_u32(be as int) {
        Some(
            CorrectionView {
                start_byte: bs as u32,
                end_byte: be as u32,
                original_text: t.subrange(span.0, span.1),
                corrected_text: target,
                sources,
            },
        )
    } else {
        None
    }
}

/// The corrections of a list of spans.
pub open spec fn spans_corrections(
    t: Seq<char>,
    spans: Seq<(int, int)>,
    target: Seq<char>,
    sources: Seq<SourceView>,
) -> Seq<CorrectionView>
    decreases spans.len(),
{
    if spans.len() == 0 {
        Seq::empty()
    } else {
        let head = spans_corrections(t, spans.drop_last(), target, sources);
        match span_correction(t, spans.last(), target, sources) {
            Some(c) => head.push(c),
            None => head,
        }
    }
}

/// The corrections of one alias value wherever it occurs in `t`.
pub open spec fn alias_corrections(
    t: Seq<char>,
    canonical: Seq<(Seq<char>, Seq<char>)>,
    alias: (Seq<char>, Seq<char>),
    sources: Seq<SourceView>,
) -> Seq<CorrectionView> {
    match correction_target(canonical, alias.0, alias.1) {
        Some(v) => spans_corrections(t, term_spans_spec(t, alias.1), v, sources),
        None => Seq::empty(),
    }
}

/// The corrections of every alias value of a row.
pub open spec fn aliases_corrections(
    t: Seq<char>,
    canonical: Seq<(Seq<char>, Seq<char>)>,
    aliases: Seq<(Seq<char>, Seq<char>)>,
    sources: Seq<SourceView>,
) -> Seq<CorrectionView>
    decreases aliases.len(),
{
    if aliases.len() == 0 {
        Seq::empty()
    } else {
        aliases_corrections(t, canonical, aliases.drop_last(), sources) + alias_corrections(
            t,
            canonical,
            aliases.last(),
            sources,
        )
    }
}

/// The corrections of every row, in row order.
pub open spec fn rows_corrections(t: Seq<char>, rows: Seq<CorrectionTermView>) -> Seq<CorrectionView>
    decreases rows.len(),
{
    if rows.len() == 0 {
        Seq::empty()
    } else {
        rows_corrections(t, rows.drop_last()) + aliases_corrections(
            t,
            rows.last().canonical,
            rows.last().aliases,
            rows.last().sources,
        )
    }
}

/// The views of a list of corrections.
pub open spec fn corrections_view(v: Seq<CorpusRecognitionCorrection>) -> Seq<CorrectionView> {
    v.map_values(|c: CorpusRecognitionCorrection| c@)
}

/// Copies a correction.
fn clone_correction(c: &CorpusRecognitionCorrection) -> (r: CorpusRecognitionCorrection)
    ensures
        r@ == c@,
{
    CorpusRecognitionCorrection {
        start_byte: c.start_byte,
        end_byte: c.end_byte,
        original_text: c.original_text.clone(),
        corrected_text: c.corrected_text.clone(),
        sources: clone_sources(&c.sources),
    }
}

/// Appends the corrections of one alias value.
fn push_alias_corrections(
    found: &mut Vec<CorpusRecognitionCorrection>,
    text: &str,
    t: &Vec<char>,
    bytes: &Vec<u128>,
    alias: &str,
    target: &String,
    sources: &Vec<CorpusTermSource>,
)
    requires
        t@ == text@,
        bytes@.len() == t@.len() + 1,
        forall|k: int| 0 <= k <= t@.len() ==> #[trigger] bytes@[k] == utf8_len(t@.take(k)),
    ensures
        corrections_view(final(found)@) == corrections_view(old(found)@) + spans_corrections(
            t@,
            term_spans_spec(t@, alias@),
            target@,
            sources_view(sources@),
        ),
{
    let spans = term_spans(t.as_slice(), alias);
    let ghost sp = spans@.map_values(|s: (usize, usize)| (s.0 as int, s.1 as int));
    let ghost start = corrections_view(found@);
    let mut i: usize = 0;
    while i < spans.len()
        invariant
            0 <= i <= spans@.len(),
            t@ == text@,
            bytes@.len() == t@.len() + 1,
            forall|k: int| 0 <= k <= t@.len() ==> #[trigger] bytes@[k] == utf8_len(t@.take(k)),
            sp == spans@.map_values(|s: (usize, usize)| (s.0 as int, s.1 as int)),
            sp == term_spans_spec(t@, alias@),
            start == corrections_view(old(found)@),
            corrections_view(found@) == start + spans_corrections(
                t@,
                sp.take(i as int),
                target@,
                sources_view(sources@),
            ),
        decreases spans@.len() - i,
    {
        assert(sp.take(i + 1).drop_last() =~= sp.take(i as int));
        assert(sp.take(i + 1).last() == sp[i as int]);
        let (s, e) = spans[i];
        assert(sp[i as int] == (s as int, e as int));
        if s <= e && e <= t.len() {
            let bs = bytes[s];
            let be = bytes[e];
            if bs < 0x1_0000_0000 && be < 0x1_0000_0000 {
                let piece = text.substring_char(s, e);
                let c = CorpusRecognitionCorrection {
                    start_byte: bs as u32,
                    end_byte: be as u32,
                    original_text: piece.to_owned(),
                    corrected_text: target.clone(),
                    sources: clone_sources(sources),
                };
                let ghost before = found@;
                let ghost cv = c@;
                found.push(c);
                assert(corrections_view(found@) =~= corrections_view(before).push(cv));
            }
        }
        i = i + 1;
    }
    assert(sp.take(sp.len() as int) =~= sp);
}

/// Every correction candidate of the rows in a text, in row order.
pub fn correction_candidates(text: &str, rows: &Vec<RecognitionCorrectionTerm>) -> (r: Vec<
    CorpusRecognitionCorrection,
>)
    ensures
        corrections_view(r@) == rows_corrections(text@, ctv(rows@)),
{
    let t = chars_of(text);
    let bytes = byte_offsets(t.as_slice());
    let ghost rs = ctv(rows@);
    let mut found: Vec<CorpusRecognitionCorrection> = Vec::new();
    proof {
        assert(corrections_view(found@) =~= Seq::<CorrectionView>::empty());
    }
    let mut i: usize = 0;
    while i < rows.len()
        invariant
            0 <= i <= rows@.len(),
            rs == ctv(rows@),
            t@ == text@,
            bytes@.len() == t@.len() + 1,
            forall|k: int| 0 <= k <= t@.len() ==> #[trigger] bytes@[k] == utf8_len(t@.take(k)),
            corrections_view(found@) == rows_corrections(text@, rs.take(i as int)),
        decreases rows@.len() - i,
    {
        assert(rs.take(i + 1).drop_last() =~= rs.take(i as int));
        assert(rs.take(i + 1).last() == rows@[i as int]@);
        let row = &rows[i];
        let ghost canon = pairs_view(row.canonical@);
        let ghost av = pairs_view(row.aliases@);
        let ghost base = corrections_view(found@);
        let mut j: usize = 0;
        while j < row.aliases.len()
            invariant
                0 <= j <= row.aliases@.len(),
                canon == pairs_view(row.canonical@),
                av == pairs_view(row.aliases@),
                t@ == text@,
                bytes@.len() == t@.len() + 1,
                forall|k: int| 0 <= k <= t@.len() ==> #[trigger] bytes@[k] == utf8_len(t@.take(k)),
                corrections_view(found@) == base + aliases_corrections(
                    text@,
                    canon,
                    av.take(j as int),
                    sources_view(row.sources@),
                ),
            decreases row.aliases@.len() - j,
        {
            assert(av.take(j + 1).drop_last() =~= av.take(j as int));
            assert(av.take(j + 1).last() == (row.aliases@[j as int].0@, row.aliases@[j as int].1@));
            let ghost mid = corrections_view(found@);
            match correction_target_exec(&row.canonical, row.aliases[j].0.as_str(), row.aliases[j].1.as_str()) {
                Some(target) => {
                    push_alias_corrections(
                        &mut found,
                        text,
                        &t,
                        &bytes,
                        row.aliases[j].1.as_str(),
                        &target,
                        &row.sources,
                    );
                },
                None => {
                    assert(mid =~= mid + Seq::<CorrectionView>::empty());
                },
            }
            assert(corrections_view(found@) =~= base + aliases_corrections(
                text@,
                canon,
                av.take(j + 1),
                sources_view(row.sources@),
            ));
            j = j + 1;
        }
        assert(av.take(av.len() as int) =~= av);
        i = i + 1;
    }
    assert(rs.take(rs.len() as int) =~= rs);
    found
}

// ---------------------------------------------------------------------------
// Choosing non-overlapping corrections.
// ---------------------------------------------------------------------------

/// Candidate order: earlier start first, longer span first at equal starts.
pub open spec fn correction_before(a: CorrectionView, b: CorrectionView) -> bool {
    a.start_byte < b.start_byte || (a.start_byte == b.start_byte && a.end_byte > b.end_byte)
}

/// Inserts into a sorted sequence after every element it does not sort
/// before, so that equal keys keep their order.
pub open spec fn insert_correction(s: Seq<CorrectionView>, x: CorrectionView) -> Seq<CorrectionView>
    decreases s.len(),
{
    if s.len() == 0 {
        seq![x]
    } else if correction_before(x, s.last()) {
        insert_correction(s.drop_last(), x).push(s.last())
    } else {
        s.push(x)
    }
}

/// Stable sort by `correction_before`.
pub open spec fn sort_corrections(s: Seq<CorrectionView>) -> Seq<CorrectionView>
    decreases s.len(),
{
    if s.len() == 0 {
        s
    } else {
        insert_correction(sort_corrections(s.drop_last()), s.last())
    }
}

/// Where `insert_correction` places `x`.
pub open spec fn correction_pos(s: Seq<CorrectionView>, x: CorrectionView) -> int
    decreases s.len(),
{
    if s.len() == 0 {
        0
    } else if correction_before(x, s.last()) {
        correction_pos(s.drop_last(), x)
    } else {
        s.len() as int
    }
}

proof fn lemma_insert_correction_pos(s: Seq<CorrectionView>, x: CorrectionView)
    ensures
        0 <= correction_pos(s, x) <= s.len(),
        insert_correction(s, x) == s.insert(correction_pos(s, x), x),
    decreases s.len(),
{
    if s.len() == 0 {
        assert(s.insert(0, x) =~= seq![x]);
    } else if correction_before(x, s.last()) {
        lemma_insert_correction_pos(s.drop_last(), x);
        let p = correction_pos(s.drop_last(), x);
        assert(s.drop_last().insert(p, x).push(s.last()) =~= s.insert(p, x));
    } else {
        assert(s.push(x) =~= s.insert(s.len() as int, x));
    }
}

proof fn lemma_correction_pos_prefix(s: Seq<CorrectionView>, x: CorrectionView, p: int)
    requires
        0 <= p <= s.len(),
        forall|k: int| p <= k < s.len() ==> correction_before(x, #[trigger] s[k]),
    ensures
        correction_pos(s, x) == correction_pos(s.take(p), x),
    decreases s.len() - p,
{
    if p < s.len() {
        assert(s.drop_last() =~= s.take(s.len() - 1));
        assert(correction_before(x, s.last()));
        lemma_correction_pos_prefix(s.drop_last(), x, p);
        assert(s.drop_last().take(p) =~= s.take(p));
    } else {
        assert(s.take(p) =~= s);
    }
}

/// Whether two corrections overlap.
pub open spec fn corrections_overlap(a: CorrectionView, b: CorrectionView) -> bool {
    a.start_byte < b.end_byte && a.end_byte > b.start_byte
}

/// Greedy choice: a candidate is kept unless it overlaps one already kept.
pub open spec fn keep_non_overlapping(cs: Seq<CorrectionView>) -> Seq<CorrectionView>
    decreases cs.len(),
{
    if cs.len() == 0 {
        cs
    } else {
        let kept = keep_non_overlapping(cs.drop_last());
        if exists|k: int| 0 <= k < kept.len() && corrections_overlap(cs.last(), #[trigger] kept[k]) {
            kept
        } else {
            kept.push(cs.last())
        }
    }
}

/// The chosen corrections: candidates sorted by start (longest first at
/// equal starts), then kept greedily when they overlap none kept before.
pub open spec fn select_corrections_spec(cs: Seq<CorrectionView>) -> Seq<CorrectionView> {
    keep_non_overlapping(sort_corrections(cs))
}

/// Whether no two corrections of a list overlap.
pub open spec fn pairwise_disjoint(cs: Seq<CorrectionView>) -> bool {
    forall|i: int, j: int| 0 <= i < j < cs.len() ==> !corrections_overlap(#[trigger] cs[i], #[trigger] cs[j])
}

/// Whether corrections are ordered by start.
pub open spec fn corrections_by_start(cs: Seq<CorrectionView>) -> bool {
    forall|i: int, j: int| 0 <= i < j < cs.len() ==> cs[i].start_byte <= cs[j].start_byte
}

proof fn lemma_keep_disjoint(cs: Seq<CorrectionView>)
    ensures
        pairwise_disjoint(keep_non_overlapping(cs)),
    decreases cs.len(),
{
    if cs.len() > 0 {
        lemma_keep_disjoint(cs.drop_last());
        let kept = keep_non_overlapping(cs.drop_last());
        let c = cs.last();
        if !(exists|k: int| 0 <= k < kept.len() && corrections_overlap(c, #[trigger] kept[k])) {
            let r = kept.push(c);
            assert forall|i: int, j: int| 0 <= i < j < r.len() implies !corrections_overlap(
                #[trigger] r[i],
                #[trigger] r[j],
            ) by {
                if j == kept.len() {
                    assert(r[i] == kept[i]);
                    assert(!corrections_overlap(c, kept[i]));
                } else {
                    assert(r[i] == kept[i] && r[j] == kept[j]);
                }
            }
        }
    }
}

proof fn lemma_insert_correction_sorted(s: Seq<CorrectionView>, x: CorrectionView)
    requires
        corrections_by_start(s),
    ensures
        corrections_by_start(insert_correction(s, x)),
    decreases s.len(),
{
    if s.len() > 0 && correction_before(x, s.last()) {
        let d = s.drop_last();
        assert(corrections_by_start(d));
        lemma_insert_correction_sorted(d, x);
        lemma_insert_correction_pos(d, x);
        let r = insert_correction(d, x);
        let p = correction_pos(d, x);
        assert forall|i: int, j: int| 0 <= i < j < r.push(s.last()).len() implies r.push(
            s.last(),
        )[i].start_byte <= r.push(s.last())[j].start_byte by {
            if j == r.len() {
                if i < p {
                    assert(r[i] == d[i]);
                } else if i == p {
                    assert(r[i] == x);
                } else {
                    assert(r[i] == d[i - 1]);
                }
            }
        }
    } else if s.len() > 0 {
        assert forall|i: int, j: int| 0 <= i < j < s.push(x).len() implies s.push(x)[i].start_byte
            <= s.push(x)[j].start_byte by {
            if j == s.len() {
                assert(s[i].start_byte <= s.last().start_byte || i == s.len() - 1);
            }
        }
    }
}

proof fn lemma_sort_corrections_sorted(s: Seq<CorrectionView>)
    ensures
        corrections_by_start(sort_corrections(s)),
    decreases s.len(),
{
    if s.len() > 0 {
        lemma_sort_corrections_sorted(s.drop_last());
        lemma_insert_correction_sorted(sort_corrections(s.drop_last()), s.last());
    }
}

proof fn lemma_keep_ordered(cs: Seq<CorrectionView>)
    requires
        corrections_by_start(cs),
    ensures
        corrections_by_start(keep_non_overlapping(cs)),
        forall|k: int|
            0 <= k < keep_non_overlapping(cs).len() ==> exists|j: int|
                0 <= j < cs.len() && (#[trigger] keep_non_overlapping(cs)[k]) == cs[j],
    decreases cs.len(),
{
    if cs.len() > 0 {
        let d = cs.drop_last();
        assert(corrections_by_start(d));
        lemma_keep_ordered(d);
        let kept = keep_non_overlapping(d);
        let c = cs.last();
        assert forall|k: int| 0 <= k < kept.len() implies (#[trigger] kept[k]).start_byte
            <= c.start_byte by {
            let j = choose|j: int| 0 <= j < d.len() && kept[k] == d[j];
            assert(d[j] == cs[j]);
        }
        let r = keep_non_overlapping(cs);
        assert forall|k: int| 0 <= k < r.len() implies exists|j: int|
            0 <= j < cs.len() && (#[trigger] r[k]) == cs[j] by {
            if k < kept.len() {
                let j = choose|j: int| 0 <= j < d.len() && kept[k] == d[j];
                assert(d[j] == cs[j]);
                assert(r[k] == kept[k]);
            } else {
                assert(r[k] == c);
                assert(cs[cs.len() - 1] == c);
            }
        }
    }
}

/// Stable insertion of one candidate.
fn insert_correction_exec(sorted: &mut Vec<CorpusRecognitionCorrection>, x: CorpusRecognitionCorrection)
    ensures
        corrections_view(final(sorted)@) == insert_correction(corrections_view(old(sorted)@), x@),
{
    let ghost s = corrections_view(sorted@);
    let mut pos: usize = sorted.len();
    while pos > 0 && (x.start_byte < sorted[pos - 1].start_byte || (x.start_byte == sorted[pos
        - 1].start_byte && x.end_byte > sorted[pos - 1].end_byte))
        invariant
            0 <= pos <= sorted@.len(),
            s == corrections_view(sorted@),
            forall|k: int| pos <= k < s.len() ==> correction_before(x@, #[trigger] s[k]),
        decreases pos,
    {
        assert(s[pos - 1] == sorted@[pos - 1]@);
        pos = pos - 1;
    }
    proof {
        lemma_correction_pos_prefix(s, x@, pos as int);
        lemma_insert_correction_pos(s, x@);
        if pos > 0 {
            assert(s.take(pos as int).drop_last() =~= s.take(pos - 1));
            assert(s.take(pos as int).last() == s[pos - 1]);
            assert(!correction_before(x@, s[pos - 1]));
        }
    }
    let ghost xv = x@;
    sorted.insert(pos, x);
    assert(corrections_view(sorted@) =~= s.insert(pos as int, xv));
}

/// Keeps the corrections that overlap no earlier kept one, after ordering
/// them by start, longest first (see `select_corrections_spec`).
pub fn select_non_overlapping_corrections(corrections: Vec<CorpusRecognitionCorrection>) -> (r: Vec<
    CorpusRecognitionCorrection,
>)
    ensures
        corrections_view(r@) == select_corrections_spec(corrections_view(corrections@)),
        pairwise_disjoint(corrections_view(r@)),
        corrections_by_start(corrections_view(r@)),
{
    let ghost cands = corrections_view(corrections@);
    let mut sorted: Vec<CorpusRecognitionCorrection> = Vec::new();
    proof {
        assert(corrections_view(sorted@) =~= sort_corrections(cands.take(0)));
    }
    let mut k: usize = 0;
    while k < corrections.len()
        invariant
            0 <= k <= corrections@.len(),
            cands == corrections_view(corrections@),
            corrections_view(sorted@) == sort_corrections(cands.take(k as int)),
        decreases corrections@.len() - k,
    {
        assert(cands.take(k + 1).drop_last() =~= cands.take(k as int));
        assert(cands.take(k + 1).last() == corrections@[k as int]@);
        insert_correction_exec(&mut sorted, clone_correction(&corrections[k]));
        k = k + 1;
    }
    assert(cands.take(cands.len() as int) =~= cands);
    let ghost ordered = corrections_view(sorted@);
    let mut kept: Vec<CorpusRecognitionCorrection> = Vec::new();
    proof {
        assert(corrections_view(kept@) =~= keep_non_overlapping(ordered.take(0)));
    }
    let mut m: usize = 0;
    while m < sorted.len()
        invariant
            0 <= m <= sorted@.len(),
            ordered == corrections_view(sorted@),
            corrections_view(kept@) == keep_non_overlapping(ordered.take(m as int)),
        decreases sorted@.len() - m,
    {
        assert(ordered.take(m + 1).drop_last() =~= ordered.take(m as int));
        assert(ordered.take(m + 1).last() == sorted@[m as int]@);
        let ghost kv = corrections_view(kept@);
        let c = &sorted[m];
        let mut overlap = false;
        let mut j: usize = 0;
        while j < kept.len()
            invariant
                0 <= j <= kept@.len(),
                kv == corrections_view(kept@),
                overlap == exists|q: int| 0 <= q < j && corrections_overlap(c@, #[trigger] kv[q]),
            decreases kept@.len() - j,
        {
            assert(kv[j as int] == kept@[j as int]@);
            if c.start_byte < kept[j].end_byte && c.end_byte > kept[j].start_byte {
                overlap = true;
            }
            j = j + 1;
        }
        if !overlap {
            let ghost cv = c@;
            kept.push(clone_correction(c));
            assert(corrections_view(kept@) =~= kv.push(cv));
        }
        m = m + 1;
    }
    assert(ordered.take(ordered.len() as int) =~= ordered);
    proof {
        lemma_keep_disjoint(ordered);
        lemma_sort_corrections_sorted(cands);
        lemma_keep_ordered(ordered);
    }
    kept
}

} // verus!
