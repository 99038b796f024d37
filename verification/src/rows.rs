//! Terminology rows selected from active corpora.

use vstd::prelude::*;

use crate::corpus::{CorpusDefinition, CorpusTerm, DefinitionView, terms_view};
use crate::protocol::{CorpusTermSource, SourceView, sources_view};
use crate::text::str_eq;

verus! {

/// The views of a list of string pairs.
pub open spec fn pairs_view(v: Seq<(String, String)>) -> Seq<(Seq<char>, Seq<char>)> {
    v.map_values(|p: (String, String)| (p.0@, p.1@))
}

/// Copies a list of string pairs.
pub fn clone_pairs(v: &Vec<(String, String)>) -> (r: Vec<(String, String)>)
    ensures
        pairs_view(r@) == pairs_view(v@),
{
    let mut r: Vec<(String, String)> = Vec::new();
    let mut i: usize = 0;
    while i < v.len()
        invariant
            0 <= i <= v@.len(),
            pairs_view(r@) == pairs_view(v@.take(i as int)),
        decreases v@.len() - i,
    {
        let ghost before = r@;
        r.push((v[i].0.clone(), v[i].1.clone()));
        assert(pairs_view(r@) =~= pairs_view(before).push((v@[i as int].0@, v@[i as int].1@)));
        assert(pairs_view(v@.take(i + 1)) =~= pairs_view(v@.take(i as int)).push(
            (v@[i as int].0@, v@[i as int].1@),
        ));
        i = i + 1;
    }
    assert(v@.take(v@.len() as int) =~= v@);
    r
}

/// Copies a list of sources.
pub fn clone_sources(v: &Vec<CorpusTermSource>) -> (r: Vec<CorpusTermSource>)
    ensures
        sources_view(r@) == sources_view(v@),
{
    let mut r: Vec<CorpusTermSource> = Vec::new();
    let mut i: usize = 0;
    while i < v.len()
        invariant
            0 <= i <= v@.len(),
            sources_view(r@) == sources_view(v@.take(i as int)),
        decreases v@.len() - i,
    {
        let ghost before = r@;
        r.push(v[i].clone());
        assert(sources_view(r@) =~= sources_view(before).push(v@[i as int]@));
        assert(sources_view(v@.take(i + 1)) =~= sources_view(v@.take(i as int)).push(
            v@[i as int]@,
        ));
        i = i + 1;
    }
    assert(v@.take(v@.len() as int) =~= v@);
    r
}

/// Compares two sources field by field.
pub fn source_eq(a: &CorpusTermSource, b: &CorpusTermSource) -> (r: bool)
    ensures
        r == (a@ == b@),
{
    str_eq(a.corpus_id.as_str(), b.corpus_id.as_str()) && str_eq(a.domain.as_str(), b.domain.as_str())
        && str_eq(a.subdomain.as_str(), b.subdomain.as_str()) && str_eq(
        a.title.as_str(),
        b.title.as_str(),
    )
}

/// Whether a source list contains a source.
pub fn sources_contain(v: &Vec<CorpusTermSource>, s: &CorpusTermSource) -> (r: bool)
    ensures
        r == sources_view(v@).contains(s@),
{
    let ghost view = sources_view(v@);
    let mut i: usize = 0;
    while i < v.len()
        invariant
            0 <= i <= v@.len(),
            view == sources_view(v@),
            forall|k: int| 0 <= k < i ==> view[k] != s@,
        decreases v@.len() - i,
    {
        if source_eq(&v[i], s) {
            assert(view[i as int] == s@);
            return true;
        }
        i = i + 1;
    }
    false
}

/// The source record of a corpus.
pub open spec fn source_of(d: DefinitionView) -> SourceView {
    SourceView { corpus_id: d.id, domain: d.domain, subdomain: d.subdomain, title: d.title }
}

/// Builds the source record of a corpus.
pub fn source_for(corpus: &CorpusDefinition) -> (r: CorpusTermSource)
    ensures
        r@ == source_of(corpus@),
{
    CorpusTermSource {
        corpus_id: corpus.id.clone(),
        domain: corpus.domain.clone(),
        subdomain: corpus.subdomain.clone(),
        title: corpus.title.clone(),
    }
}

/// One terminology row: its comma-separated rendering in task-language
/// order, its task-language values, all of its language values (used for
/// matching), and the corpora it came from.
#[derive(Debug, PartialEq, Eq)]
pub struct SelectedPromptTerm {
    pub row: String,
    pub values: Vec<(String, String)>,
    pub match_values: Vec<(String, String)>,
    pub sources: Vec<CorpusTermSource>,
}

/// The mathematical content of a terminology row.
pub struct RowView {
    pub row: Seq<char>,
    pub values: Seq<(Seq<char>, Seq<char>)>,
    pub match_values: Seq<(Seq<char>, Seq<char>)>,
    pub sources: Seq<SourceView>,
}

impl View for SelectedPromptTerm {
    type V = RowView;

    open spec fn view(&self) -> RowView {
        RowView {
            row: self.row@,
            values: pairs_view(self.values@),
            match_values: pairs_view(self.match_values@),
            sources: sources_view(self.sources@),
        }
    }
}

impl Clone for SelectedPromptTerm {
    fn clone(&self) -> (r: Self)
        ensures
            r@ == self@,
    {
        SelectedPromptTerm {
            row: self.row.clone(),
            values: clone_pairs(&self.values),
            match_values: clone_pairs(&self.match_values),
            sources: clone_sources(&self.sources),
        }
    }
}

/// The views of a list of rows.
pub open spec fn rv(v: Seq<SelectedPromptTerm>) -> Seq<RowView> {
    v.map_values(|t: SelectedPromptTerm| t@)
}

/// Copies a list of rows.
pub fn clone_rows(v: &[SelectedPromptTerm]) -> (r: Vec<SelectedPromptTerm>)
    ensures
        rv(r@) == rv(v@),
{
    let mut r: Vec<SelectedPromptTerm> = Vec::new();
    let mut i: usize = 0;
    while i < v.len()
        invariant
            0 <= i <= v@.len(),
            rv(r@) == rv(v@.take(i as int)),
        decreases v@.len() - i,
    {
        let ghost before = r@;
        r.push(v[i].clone());
        assert(rv(r@) =~= rv(before).push(v@[i as int]@));
        assert(rv(v@.take(i + 1)) =~= rv(v@.take(i as int)).push(v@[i as int]@));
        i = i + 1;
    }
    assert(v@.take(v@.len() as int) =~= v@);
    r
}

/// The rendered rows of a list of rows.
pub open spec fn row_texts(v: Seq<RowView>) -> Seq<Seq<char>> {
    v.map_values(|t: RowView| t.row)
}

/// Collects the rendered rows.
pub fn row_strings(v: &[SelectedPromptTerm]) -> (r: Vec<String>)
    ensures
        crate::prompt::sv(r@) == row_texts(rv(v@)),
{
    let mut r: Vec<String> = Vec::new();
    let mut i: usize = 0;
    while i < v.len()
        invariant
            0 <= i <= v@.len(),
            crate::prompt::sv(r@) == row_texts(rv(v@.take(i as int))),
        decreases v@.len() - i,
    {
        let ghost before = r@;
        r.push(v[i].row.clone());
        assert(crate::prompt::sv(r@) =~= crate::prompt::sv(before).push(v@[i as int].row@));
        assert(row_texts(rv(v@.take(i + 1))) =~= row_texts(rv(v@.take(i as int))).push(
            v@[i as int].row@,
        ));
        i = i + 1;
    }
    assert(v@.take(v@.len() as int) =~= v@);
    r
}

} // verus!
