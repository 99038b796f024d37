//! Terminology rows of the selected corpora and how rows are merged.

use vstd::prelude::*;

use crate::corpus::{
    CorpusDefinition, CorpusTerm, DefinitionView, column_value, term_value, terms_view,
};
use crate::fold::{fold, fold_chars_of};
use crate::language::{LANGUAGE_COUNT, language_code, language_code_string, split_chars, split_on};
use crate::prompt::{join, join_strings, sv};
use crate::protocol::sources_view;
use crate::rows::{
    RowView, SelectedPromptTerm, clone_rows, pairs_view, rv, source_for, source_of, sources_contain,
};
use crate::text::{
    chars_eq, chars_of, is_blank, is_blank_chars, lowercase_str, owned, str_lowercase,
    string_from_chars, trim, trim_chars,
};

verus! {

broadcast use vstd::string::group_string_axioms;

// ---------------------------------------------------------------------------
// Values of one term.
// ---------------------------------------------------------------------------

/// The non-blank values of a term, trimmed, in column order.
pub open spec fn trimmed_values(v: Seq<Seq<char>>) -> Seq<Seq<char>>
    decreases v.len(),
{
    if v.len() == 0 {
        Seq::empty()
    } else if is_blank(v.last()) {
        trimmed_values(v.drop_last())
    } else {
        trimmed_values(v.drop_last()).push(trim(v.last()))
    }
}

/// The folded forms of the trimmed values of a term.
pub open spec fn folded_values(v: Seq<Seq<char>>) -> Seq<Seq<char>> {
    trimmed_values(v).map_values(|x: Seq<char>| fold(x))
}

/// Computes the folded forms of the trimmed values of a term.
pub fn folded_values_of(term: &CorpusTerm) -> (r: Vec<Vec<char>>)
    ensures
        r@.map_values(|x: Vec<char>| x@) == folded_values(term@),
{
    let mut r: Vec<Vec<char>> = Vec::new();
    let mut i: usize = 0;
    while i < term.ordered_values.len()
        invariant
            0 <= i <= term.ordered_values@.len(),
            r@.map_values(|x: Vec<char>| x@) == folded_values(term@.take(i as int)),
        decreases term.ordered_values@.len() - i,
    {
        assert(term@.take(i + 1).drop_last() =~= term@.take(i as int));
        assert(term@.take(i + 1).last() == term.ordered_values@[i as int]@);
        let chars = chars_of(term.ordered_values[i].as_str());
        if !is_blank_chars(chars.as_slice()) {
            let t = trim_chars(chars.as_slice());
            let s = string_from_chars(t.as_slice());
            let f = fold_chars_of(s.as_str());
            let ghost before = r@;
            r.push(f);
            assert(r@.map_values(|x: Vec<char>| x@) =~= before.map_values(|x: Vec<char>| x@).push(
                fold(trim(chars@)),
            ));
            assert(folded_values(term@.take(i + 1)) =~= folded_values(term@.take(i as int)).push(
                fold(trim(chars@)),
            ));
        }
        i = i + 1;
    }
    assert(term@.take(term@.len() as int) =~= term@);
    r
}

/// Whether two terms share a value, compared by folded form.
pub open spec fn terms_overlap_spec(left: Seq<Seq<char>>, right: Seq<Seq<char>>) -> bool {
    let l = folded_values(left);
    let r = folded_values(right);
    exists|i: int, j: int|
        0 <= i < l.len() && 0 <= j < r.len() && #[trigger] l[i].len() > 0 && l[i] == #[trigger] r[j]
}

/// Whether two terms share a value (by folded form).
pub fn terms_overlap(left: &CorpusTerm, right: &CorpusTerm) -> (r: bool)
    ensures
        r == terms_overlap_spec(left@, right@),
{
    let l = folded_values_of(left);
    let rr = folded_values_of(right);
    let ghost lv = l@.map_values(|x: Vec<char>| x@);
    let ghost rvv = rr@.map_values(|x: Vec<char>| x@);
    let mut i: usize = 0;
    while i < l.len()
        invariant
            0 <= i <= l@.len(),
            lv == l@.map_values(|x: Vec<char>| x@),
            rvv == rr@.map_values(|x: Vec<char>| x@),
            lv == folded_values(left@),
            rvv == folded_values(right@),
            forall|a: int, b: int|
                0 <= a < i && 0 <= b < rvv.len() ==> !(#[trigger] lv[a].len() > 0 && lv[a]
                    == #[trigger] rvv[b]),
        decreases l@.len() - i,
    {
        if l[i].len() > 0 {
            let mut j: usize = 0;
            while j < rr.len()
                invariant
                    0 <= i < l@.len(),
                    0 <= j <= rr@.len(),
                    l@[i as int]@.len() > 0,
                    lv == l@.map_values(|x: Vec<char>| x@),
                    rvv == rr@.map_values(|x: Vec<char>| x@),
                    lv == folded_values(left@),
                    rvv == folded_values(right@),
                    forall|b: int| 0 <= b < j ==> lv[i as int] != #[trigger] rvv[b],
                decreases rr@.len() - j,
            {
                assert(lv[i as int] == l@[i as int]@);
                assert(rvv[j as int] == rr@[j as int]@);
                if chars_eq(l[i].as_slice(), rr[j].as_slice()) {
                    assert(lv[i as int].len() > 0 && lv[i as int] == rvv[j as int]);
                    return true;
                }
                j = j + 1;
            }
        }
        assert(lv[i as int] == l@[i as int]@);
        i = i + 1;
    }
    false
}

/// The value of a term in a language, or the empty string.
pub open spec fn value_or_empty(term: Seq<Seq<char>>, language: Seq<char>) -> Seq<char> {
    match term_value(term, language) {
        Some(v) => v,
        None => Seq::empty(),
    }
}

/// The rendered row of a term: its values in task-language order, joined by
/// commas (empty where a language has no value).
pub open spec fn row_spec(term: Seq<Seq<char>>, languages: Seq<Seq<char>>) -> Seq<char> {
    join(languages.map_values(|l: Seq<char>| value_or_empty(term, l)), ","@)
}

/// The `(language, value)` pairs of a term for the task languages.
pub open spec fn task_values(term: Seq<Seq<char>>, languages: Seq<Seq<char>>) -> Seq<
    (Seq<char>, Seq<char>),
>
    decreases languages.len(),
{
    if languages.len() == 0 {
        Seq::empty()
    } else {
        let head = task_values(term, languages.drop_last());
        match term_value(term, languages.last()) {
            Some(v) => head.push((languages.last(), v)),
            None => head,
        }
    }
}

/// The `(language, value)` pairs of a term for every column with a value.
pub open spec fn all_values_upto(term: Seq<Seq<char>>, k: int) -> Seq<(Seq<char>, Seq<char>)>
    decreases k,
{
    if k <= 0 {
        Seq::empty()
    } else {
        let head = all_values_upto(term, k - 1);
        match column_value(term, k - 1) {
            Some(v) => head.push((language_code(k - 1), v)),
            None => head,
        }
    }
}

/// All `(language, value)` pairs of a term.
pub open spec fn all_values(term: Seq<Seq<char>>) -> Seq<(Seq<char>, Seq<char>)> {
    all_values_upto(term, LANGUAGE_COUNT as int)
}

/// Renders the row of a term.
pub fn selected_term_row(term: &CorpusTerm, languages: &[String]) -> (r: String)
    ensures
        r@ == row_spec(term@, sv(languages@)),
{
    let mut parts: Vec<String> = Vec::new();
    let mut i: usize = 0;
    while i < languages.len()
        invariant
            0 <= i <= languages@.len(),
            sv(parts@) == sv(languages@).take(i as int).map_values(
                |l: Seq<char>| value_or_empty(term@, l),
            ),
        decreases languages@.len() - i,
    {
        let v = match term.value(languages[i].as_str()) {
            Some(v) => v,
            None => String::new(),
        };
        let ghost before = parts@;
        parts.push(v);
        assert(sv(parts@) =~= sv(before).push(value_or_empty(term@, languages@[i as int]@)));
        assert(sv(languages@).take(i + 1).map_values(|l: Seq<char>| value_or_empty(term@, l))
            =~= sv(languages@).take(i as int).map_values(
            |l: Seq<char>| value_or_empty(term@, l),
        ).push(value_or_empty(term@, languages@[i as int]@)));
        i = i + 1;
    }
    assert(sv(languages@).take(languages@.len() as int) =~= sv(languages@));
    join_strings(parts.as_slice(), ",")
}

/// The task-language pairs of a term.
pub fn task_term_values(term: &CorpusTerm, languages: &[String]) -> (r: Vec<(String, String)>)
    ensures
        pairs_view(r@) == task_values(term@, sv(languages@)),
{
    let mut r: Vec<(String, String)> = Vec::new();
    let mut i: usize = 0;
    while i < languages.len()
        invariant
            0 <= i <= languages@.len(),
            pairs_view(r@) == task_values(term@, sv(languages@).take(i as int)),
        decreases languages@.len() - i,
    {
        assert(sv(languages@).take(i + 1).drop_last() =~= sv(languages@).take(i as int));
        assert(sv(languages@).take(i + 1).last() == languages@[i as int]@);
        match term.value(languages[i].as_str()) {
            Some(v) => {
                let ghost before = r@;
                r.push((languages[i].clone(), v));
                assert(pairs_view(r@) =~= pairs_view(before).push(
                    (languages@[i as int]@, r@.last().1@),
                ));
            },
            None => {},
        }
        i = i + 1;
    }
    assert(sv(languages@).take(languages@.len() as int) =~= sv(languages@));
    r
}

/// All language pairs of a term.
pub fn all_term_values(term: &CorpusTerm) -> (r: Vec<(String, String)>)
    ensures
        pairs_view(r@) == all_values(term@),
{
    let mut r: Vec<(String, String)> = Vec::new();
    let mut i: usize = 0;
    while i < LANGUAGE_COUNT
        invariant
            0 <= i <= LANGUAGE_COUNT,
            pairs_view(r@) == all_values_upto(term@, i as int),
        decreases LANGUAGE_COUNT - i,
    {
        match term.value_at(i) {
            Some(v) => {
                let code = language_code_string(i);
                let ghost before = r@;
                r.push((code, v));
                assert(pairs_view(r@) =~= pairs_view(before).push(
                    (language_code(i as int), r@.last().1@),
                ));
            },
            None => {},
        }
        i = i + 1;
    }
    r
}

/// Whether a term has two different non-empty folded values among the task
/// languages.
pub open spec fn multilingual_spec(term: Seq<Seq<char>>, languages: Seq<Seq<char>>) -> bool {
    let f = task_values(term, languages).map_values(|p: (Seq<char>, Seq<char>)| fold(p.1));
    exists|a: int, b: int|
        0 <= a < f.len() && 0 <= b < f.len() && #[trigger] f[a].len() > 0 && #[trigger] f[b].len()
            > 0 && f[a] != f[b]
}

/// Whether a term maps at least two distinct task-language values.
pub fn is_multilingual_mapping(term: &CorpusTerm, languages: &[String]) -> (r: bool)
    ensures
        r == multilingual_spec(term@, sv(languages@)),
{
    let pairs = task_term_values(term, languages);
    let ghost f = task_values(term@, sv(languages@)).map_values(
        |p: (Seq<char>, Seq<char>)| fold(p.1),
    );
    let mut first: Option<Vec<char>> = None;
    let mut i: usize = 0;
    while i < pairs.len()
        invariant
            0 <= i <= pairs@.len(),
            pairs_view(pairs@) == task_values(term@, sv(languages@)),
            f == task_values(term@, sv(languages@)).map_values(
                |p: (Seq<char>, Seq<char>)| fold(p.1),
            ),
            f.len() == pairs@.len(),
            match first {
                None => forall|k: int| 0 <= k < i ==> #[trigger] f[k].len() == 0,
                Some(x) => x@.len() > 0 && (exists|k: int| 0 <= k < i && #[trigger] f[k] == x@)
                    && forall|k: int| 0 <= k < i && #[trigger] f[k].len() > 0 ==> f[k] == x@,
            },
        decreases pairs@.len() - i,
    {
        assert(f[i as int] == fold(pairs@[i as int].1@));
        let key = fold_chars_of(pairs[i].1.as_str());
        if key.len() > 0 {
            match &first {
                None => {
                    first = Some(key);
                },
                Some(x) => {
                    if !chars_eq(x.as_slice(), key.as_slice()) {
                        let ghost k0 = choose|k: int| 0 <= k < i && f[k] == x@;
                        assert(f[k0].len() > 0 && f[i as int].len() > 0 && f[k0] != f[i as int]);
                        return true;
                    }
                },
            }
        }
        i = i + 1;
    }
    false
}

// ---------------------------------------------------------------------------
// Row insertion.
// ---------------------------------------------------------------------------

/// Whether every comma-separated piece of a row is empty.
pub open spec fn blank_row(row: Seq<char>) -> bool {
    forall|k: int| 0 <= k < split_on(row, ',').len() ==> (#[trigger] split_on(row, ',')[k]).len() == 0
}

/// The first row whose lowercased rendering equals `key`, from `from`.
pub open spec fn row_index_from(rows: Seq<RowView>, key: Seq<char>, from: int) -> Option<int>
    decreases rows.len() - from,
{
    if from < 0 || from >= rows.len() {
        None
    } else if str_lowercase(rows[from].row) == key {
        Some(from)
    } else {
        row_index_from(rows, key, from + 1)
    }
}

/// Inserting the row of `term` from corpus `d`: blank rows are ignored; a
/// row equal to an existing one ignoring case only adds the corpus to that
/// row's sources (once); otherwise a new row is appended.
pub open spec fn insert_row(
    rows: Seq<RowView>,
    d: DefinitionView,
    term: Seq<Seq<char>>,
    languages: Seq<Seq<char>>,
) -> Seq<RowView> {
    let row = row_spec(term, languages);
    let src = source_of(d);
    if blank_row(row) {
        rows
    } else {
        match row_index_from(rows, str_lowercase(row), 0) {
            Some(i) => if rows[i].sources.contains(src) {
                rows
            } else {
                rows.update(i, RowView { sources: rows[i].sources.push(src), ..rows[i] })
            },
            None => rows.push(
                RowView {
                    row,
                    values: task_values(term, languages),
                    match_values: all_values(term),
                    sources: seq![src],
                },
            ),
        }
    }
}

/// Inserting a list of `(corpus, term)` pairs in order.
pub open spec fn insert_rows(
    rows: Seq<RowView>,
    pairs: Seq<(DefinitionView, Seq<Seq<char>>)>,
    languages: Seq<Seq<char>>,
) -> Seq<RowView>
    decreases pairs.len(),
{
    if pairs.len() == 0 {
        rows
    } else {
        insert_row(
            insert_rows(rows, pairs.drop_last(), languages),
            pairs.last().0,
            pairs.last().1,
            languages,
        )
    }
}

proof fn lemma_insert_rows_push(
    rows: Seq<RowView>,
    pairs: Seq<(DefinitionView, Seq<Seq<char>>)>,
    p: (DefinitionView, Seq<Seq<char>>),
    languages: Seq<Seq<char>>,
)
    ensures
        insert_rows(rows, pairs.push(p), languages) == insert_row(
            insert_rows(rows, pairs, languages),
            p.0,
            p.1,
            languages,
        ),
{
    assert(pairs.push(p).drop_last() =~= pairs);
}

fn blank_row_exec(row: &String) -> (r: bool)
    ensures
        r == blank_row(row@),
{
    let chars = chars_of(row.as_str());
    let pieces = split_chars(chars.as_slice(), ',');
    let mut i: usize = 0;
    while i < pieces.len()
        invariant
            0 <= i <= pieces@.len(),
            pieces@.len() == split_on(row@, ',').len(),
            forall|k: int| 0 <= k < pieces@.len() ==> (#[trigger] pieces@[k])@ == split_on(
                row@,
                ',',
            )[k],
            forall|k: int| 0 <= k < i ==> (#[trigger] split_on(row@, ',')[k]).len() == 0,
        decreases pieces@.len() - i,
    {
        assert(pieces@[i as int]@ == split_on(row@, ',')[i as int]);
        if pieces[i].len() > 0 {
            return false;
        }
        i = i + 1;
    }
    true
}

/// Inserts the row of `term` from `corpus` (see `insert_row`).
pub fn insert_selected_term(
    rows: &mut Vec<SelectedPromptTerm>,
    corpus: &CorpusDefinition,
    term: &CorpusTerm,
    languages: &[String],
)
    ensures
        rv(final(rows)@) == insert_row(rv(old(rows)@), corpus@, term@, sv(languages@)),
{
    let row = selected_term_row(term, languages);
    if blank_row_exec(&row) {
        return;
    }
    let source = source_for(corpus);
    let key = lowercase_str(row.as_str());
    let key_chars = chars_of(key.as_str());
    let ghost old_rows = rv(rows@);
    let mut i: usize = 0;
    while i < rows.len()
        invariant
            0 <= i <= rows@.len(),
            rv(rows@) == old_rows,
            old_rows == rv(old(rows)@),
            source@ == source_of(corpus@),
            row@ == row_spec(term@, sv(languages@)),
            !blank_row(row@),
            key_chars@ == str_lowercase(row@),
            row_index_from(old_rows, key_chars@, 0) == row_index_from(old_rows, key_chars@, i as int),
        decreases rows@.len() - i,
    {
        let existing = lowercase_str(rows[i].row.as_str());
        let existing_chars = chars_of(existing.as_str());
        assert(old_rows[i as int].row == rows@[i as int].row@);
        assert(old_rows[i as int].sources == sources_view(rows@[i as int].sources@));
        if chars_eq(existing_chars.as_slice(), key_chars.as_slice()) {
            assert(row_index_from(old_rows, key_chars@, i as int) == Some(i as int));
            if !sources_contain(&rows[i].sources, &source) {
                let ghost before = rows@;
                let mut updated = rows[i].clone();
                let ghost u0 = updated@;
                let ghost src = source@;
                let ghost old_sources = updated.sources@;
                updated.sources.push(source);
                assert(updated.sources@ == old_sources.push(updated.sources@.last()));
                assert(sources_view(updated.sources@) =~= sources_view(old_sources).push(src));
                assert(u0.sources == sources_view(old_sources));
                assert(src == source_of(corpus@));
                assert(sources_view(updated.sources@) =~= u0.sources.push(source_of(corpus@)));
                rows.set(i, updated);
                assert(rv(rows@) =~= old_rows.update(
                    i as int,
                    RowView { sources: old_rows[i as int].sources.push(source_of(corpus@)), ..old_rows[i as int] },
                ));
            }
            return;
        }
        i = i + 1;
    }
    let values = task_term_values(term, languages);
    let match_values = all_term_values(term);
    let mut sources = Vec::new();
    sources.push(source);
    let ghost before = rows@;
    let new_row = SelectedPromptTerm { row, values, match_values, sources };
    assert(sources_view(new_row.sources@) =~= seq![source_of(corpus@)]);
    rows.push(new_row);
    assert(rv(rows@) =~= old_rows.push(new_row@));
}

} // verus!
