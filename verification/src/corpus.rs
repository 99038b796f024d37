//! Corpus terms and definitions with their validation rules.

use vstd::prelude::*;

use crate::language::{
    LANGUAGE_COUNT, language_index, language_position,
};
use crate::text::{
    append_str, char_is_control, char_is_whitespace, chars_of, chars_eq, contains_char,
    is_blank, is_blank_chars, is_control, is_whitespace, owned, str_eq, string_from_chars,
    trim, trim_chars,
};

verus! {

/// Schema identifier of every corpus definition.
pub const CORPUS_SCHEMA: &'static str = "xrtranslate-corpus/v1";

/// Upper bound on the triggers, aliases or context rows of one corpus.
pub const MAX_TRIGGERS: usize = 128;

/// Upper bound on the terms of one corpus.
pub const MAX_TERMS: usize = 512;

/// Upper bound on the characters of one term value.
pub const MAX_ITEM_CHARS: usize = 512;

/// The views of a list of strings.
pub open spec fn strings_view(v: Seq<String>) -> Seq<Seq<char>> {
    v.map_values(|s: String| s@)
}

/// Copies a list of strings.
pub fn clone_strings(v: &Vec<String>) -> (r: Vec<String>)
    ensures
        r@ == v@,
{
    let mut r: Vec<String> = Vec::new();
    let mut i: usize = 0;
    while i < v.len()
        invariant
            0 <= i <= v@.len(),
            r@ == v@.take(i as int),
        decreases v@.len() - i,
    {
        r.push(v[i].clone());
        assert(v@.take(i + 1) == v@.take(i as int).push(v@[i as int]));
        i = i + 1;
    }
    assert(v@.take(v@.len() as int) =~= v@);
    r
}

/// The fragments written one after another.
pub open spec fn concat_all(parts: Seq<Seq<char>>) -> Seq<char>
    decreases parts.len(),
{
    if parts.len() == 0 {
        Seq::empty()
    } else {
        concat_all(parts.drop_last()) + parts.last()
    }
}

/// Joins message fragments into one error message.
pub fn message(parts: &[&str]) -> (r: String)
    ensures
        r@ == concat_all(parts@.map_values(|p: &str| p@)),
{
    let ghost ps = parts@.map_values(|p: &str| p@);
    let mut r = String::new();
    let mut i: usize = 0;
    while i < parts.len()
        invariant
            0 <= i <= parts@.len(),
            ps == parts@.map_values(|p: &str| p@),
            r@ == concat_all(ps.take(i as int)),
        decreases parts@.len() - i,
    {
        assert(ps.take(i + 1).drop_last() =~= ps.take(i as int));
        append_str(&mut r, parts[i]);
        i = i + 1;
    }
    assert(ps.take(parts@.len() as int) =~= ps);
    r
}

/// Controls how a corpus enters the prompt candidate set.
///
/// Persisted graph nodes usually use `OnEvidence`. Runtime providers may
/// publish `Always` snapshots for short-lived facts such as the current room
/// and player names; their terms also count as activation evidence for
/// regular corpora. `RuntimeOnly` corpora enter prompts but never activate
/// other corpora.
#[derive(Clone, Copy, Debug, PartialEq, Eq, Structural)]
pub enum CorpusActivation {
    OnEvidence,
    Always,
    RuntimeOnly,
}

impl Default for CorpusActivation {
    fn default() -> (r: Self)
        ensures
            r == CorpusActivation::OnEvidence,
    {
        CorpusActivation::OnEvidence
    }
}

/// One conceptual term with one value per language column. Empty values mean
/// the concept has no established equivalent in that language; columns are
/// never collapsed or reordered.
#[derive(Debug, PartialEq, Eq)]
pub struct CorpusTerm {
    pub ordered_values: Vec<String>,
}

/// A value may not hold a comma or a line break and has at most 512 characters.
pub open spec fn value_ok(v: Seq<char>) -> bool {
    &&& !v.contains(',')
    &&& !v.contains('\r')
    &&& !v.contains('\n')
    &&& v.len() <= MAX_ITEM_CHARS
}

/// The validity rule of a term: exactly sixteen columns, at least one
/// non-blank value, and every value acceptable.
pub open spec fn valid_term_values(values: Seq<Seq<char>>) -> bool {
    &&& values.len() == LANGUAGE_COUNT
    &&& exists|k: int| 0 <= k < values.len() && !is_blank(#[trigger] values[k])
    &&& forall|k: int| 0 <= k < values.len() ==> value_ok(#[trigger] values[k])
}

/// The value of a term in a language: the trimmed column of its base
/// language, absent when the language is unknown or the column is blank.
pub open spec fn term_value(values: Seq<Seq<char>>, language: Seq<char>) -> Option<Seq<char>> {
    match language_position(language) {
        Some(i) => if i < values.len() && !is_blank(values[i as int]) {
            Some(trim(values[i as int]))
        } else {
            None
        },
        None => None,
    }
}

/// The value of a term at a column index: trimmed, absent when blank.
pub open spec fn column_value(values: Seq<Seq<char>>, i: int) -> Option<Seq<char>> {
    if 0 <= i < values.len() && !is_blank(values[i]) {
        Some(trim(values[i]))
    } else {
        None
    }
}

impl View for CorpusTerm {
    type V = Seq<Seq<char>>;

    open spec fn view(&self) -> Seq<Seq<char>> {
        strings_view(self.ordered_values@)
    }
}

/// The views of a list of terms.
pub open spec fn terms_view(v: Seq<CorpusTerm>) -> Seq<Seq<Seq<char>>> {
    v.map_values(|t: CorpusTerm| t@)
}

impl Clone for CorpusTerm {
    fn clone(&self) -> (r: Self)
        ensures
            r@ == self@,
    {
        CorpusTerm { ordered_values: clone_strings(&self.ordered_values) }
    }
}

impl CorpusTerm {
    /// Builds a term from ordered column values and validates it.
    pub fn from_ordered(values: Vec<String>) -> (r: Result<Self, String>)
        ensures
            match r {
                Ok(term) => term.ordered_values@ == values@ && valid_term_values(term@),
                Err(_) => !valid_term_values(strings_view(values@)),
            },
    {
        let term = CorpusTerm { ordered_values: values };
        match term.validate("dynamic corpus term") {
            Ok(()) => Ok(term),
            Err(e) => Err(e),
        }
    }

    /// The trimmed, non-empty value at a column index.
    pub fn value_at(&self, index: usize) -> (r: Option<String>)
        ensures
            match r {
                Some(v) => column_value(self@, index as int) == Some(v@),
                None => column_value(self@, index as int) is None,
            },
    {
        if index >= self.ordered_values.len() {
            return None;
        }
        let chars = chars_of(self.ordered_values[index].as_str());
        assert(chars@ == self@[index as int]);
        if is_blank_chars(chars.as_slice()) {
            return None;
        }
        let trimmed = trim_chars(chars.as_slice());
        Some(string_from_chars(trimmed.as_slice()))
    }

    /// The value of this term in a language.
    pub fn value(&self, language: &str) -> (r: Option<String>)
        ensures
            match r {
                Some(v) => term_value(self@, language@) == Some(v@),
                None => term_value(self@, language@) is None,
            },
    {
        match language_index(language) {
            Some(index) => self.value_at(index),
            None => None,
        }
    }

    /// Checks the validity rule; `label` names the term in the error.
    pub fn validate(&self, label: &str) -> (r: Result<(), String>)
        ensures
            r is Ok <==> valid_term_values(self@),
    {
        let n = self.ordered_values.len();
        if n != LANGUAGE_COUNT {
            return Err(message(&[label, " does not have exactly 16 language columns in order zh,en,fr,pt,es,ja,ru,ko,th,it,de,vi,id,pl,cs,nl"]));
        }
        let ghost vals = self@;
        let mut any_value = false;
        let mut i: usize = 0;
        while i < n
            invariant
                n == self.ordered_values@.len(),
                vals == self@,
                0 <= i <= n,
                any_value <==> exists|k: int| 0 <= k < i && !is_blank(#[trigger] vals[k]),
            decreases n - i,
        {
            let chars = chars_of(self.ordered_values[i].as_str());
            assert(chars@ == vals[i as int]);
            if !is_blank_chars(chars.as_slice()) {
                any_value = true;
            }
            i = i + 1;
        }
        if !any_value {
            return Err(message(&[label, " has no value in any language"]));
        }
        let mut i: usize = 0;
        while i < n
            invariant
                n == self.ordered_values@.len(),
                vals == self@,
                0 <= i <= n,
                forall|k: int| 0 <= k < i ==> value_ok(#[trigger] vals[k]),
            decreases n - i,
        {
            let chars = chars_of(self.ordered_values[i].as_str());
            assert(chars@ == vals[i as int]);
            if contains_char(chars.as_slice(), ',') || contains_char(chars.as_slice(), '\r')
                || contains_char(chars.as_slice(), '\n') || chars.len() > MAX_ITEM_CHARS {
                return Err(message(&[label, " contains a comma, newline, or value longer than 512 characters"]));
            }
            i = i + 1;
        }
        Ok(())
    }
}

/// The identifier rule: non-blank, already trimmed, at most 256 characters,
/// and free of control and whitespace characters.
pub open spec fn valid_id(v: Seq<char>) -> bool {
    &&& !is_blank(v)
    &&& trim(v) == v
    &&& v.len() <= 256
    &&& forall|k: int| 0 <= k < v.len() ==> !char_is_control(#[trigger] v[k])
        && !char_is_whitespace(v[k])
}

/// The title rule of graph domains and nodes: non-blank, single-line, at
/// most 256 characters.
pub open spec fn valid_title(v: Seq<char>) -> bool {
    &&& !is_blank(v)
    &&& !v.contains('\r')
    &&& !v.contains('\n')
    &&& v.len() <= 256
}

/// Checks an identifier; `label` names it in the error.
pub fn check_id(value: &str, label: &str) -> (r: Result<(), String>)
    ensures
        r is Ok <==> valid_id(value@),
{
    let chars = chars_of(value);
    if is_blank_chars(chars.as_slice()) {
        return Err(message(&["invalid ", label, " ", value]));
    }
    let trimmed = trim_chars(chars.as_slice());
    if !chars_eq(trimmed.as_slice(), chars.as_slice()) || chars.len() > 256 {
        return Err(message(&["invalid ", label, " ", value]));
    }
    let mut i: usize = 0;
    while i < chars.len()
        invariant
            0 <= i <= chars@.len(),
            chars@ == value@,
            forall|k: int| 0 <= k < i ==> !char_is_control(#[trigger] chars@[k])
                && !char_is_whitespace(chars@[k]),
        decreases chars@.len() - i,
    {
        if is_control(chars[i]) || is_whitespace(chars[i]) {
            return Err(message(&["invalid ", label, " ", value]));
        }
        i = i + 1;
    }
    Ok(())
}

/// Checks a domain or node title; `label` names it in the error.
pub fn check_title(value: &str, label: &str) -> (r: Result<(), String>)
    ensures
        r is Ok <==> valid_title(value@),
{
    let chars = chars_of(value);
    if is_blank_chars(chars.as_slice()) || contains_char(chars.as_slice(), '\r')
        || contains_char(chars.as_slice(), '\n') || chars.len() > 256 {
        return Err(message(&["invalid ", label, " ", value]));
    }
    Ok(())
}

/// Inference view of one graph node group or transient provider corpus.
#[derive(Debug, PartialEq, Eq)]
pub struct CorpusDefinition {
    pub schema: String,
    pub id: String,
    pub domain: String,
    pub subdomain: String,
    pub title: String,
    pub priority: i32,
    pub activation: CorpusActivation,
    pub triggers: Vec<CorpusTerm>,
    pub trigger_aliases: Vec<CorpusTerm>,
    pub activation_context: Vec<CorpusTerm>,
    pub terms: Vec<CorpusTerm>,
}

/// Copies a list of terms.
pub fn clone_terms(v: &Vec<CorpusTerm>) -> (r: Vec<CorpusTerm>)
    ensures
        terms_view(r@) == terms_view(v@),
{
    let mut r: Vec<CorpusTerm> = Vec::new();
    let mut i: usize = 0;
    while i < v.len()
        invariant
            0 <= i <= v@.len(),
            terms_view(r@) == terms_view(v@.take(i as int)),
        decreases v@.len() - i,
    {
        let t = v[i].clone();
        r.push(t);
        assert(terms_view(v@.take(i + 1)) =~= terms_view(v@.take(i as int)).push(v@[i as int]@));
        assert(terms_view(r@) =~= terms_view(v@.take(i as int)).push(v@[i as int]@));
        i = i + 1;
    }
    assert(v@.take(v@.len() as int) =~= v@);
    r
}

/// The mathematical content of a corpus definition.
pub struct DefinitionView {
    pub schema: Seq<char>,
    pub id: Seq<char>,
    pub domain: Seq<char>,
    pub subdomain: Seq<char>,
    pub title: Seq<char>,
    pub priority: i32,
    pub activation: CorpusActivation,
    pub triggers: Seq<Seq<Seq<char>>>,
    pub trigger_aliases: Seq<Seq<Seq<char>>>,
    pub activation_context: Seq<Seq<Seq<char>>>,
    pub terms: Seq<Seq<Seq<char>>>,
}

impl View for CorpusDefinition {
    type V = DefinitionView;

    open spec fn view(&self) -> DefinitionView {
        DefinitionView {
            schema: self.schema@,
            id: self.id@,
            domain: self.domain@,
            subdomain: self.subdomain@,
            title: self.title@,
            priority: self.priority,
            activation: self.activation,
            triggers: terms_view(self.triggers@),
            trigger_aliases: terms_view(self.trigger_aliases@),
            activation_context: terms_view(self.activation_context@),
            terms: terms_view(self.terms@),
        }
    }
}

/// The views of a list of corpus definitions.
pub open spec fn definitions_view(v: Seq<CorpusDefinition>) -> Seq<DefinitionView> {
    v.map_values(|d: CorpusDefinition| d@)
}

impl Clone for CorpusDefinition {
    fn clone(&self) -> (r: Self)
        ensures
            r@ == self@,
    {
        CorpusDefinition {
            schema: self.schema.clone(),
            id: self.id.clone(),
            domain: self.domain.clone(),
            subdomain: self.subdomain.clone(),
            title: self.title.clone(),
            priority: self.priority,
            activation: self.activation,
            triggers: clone_terms(&self.triggers),
            trigger_aliases: clone_terms(&self.trigger_aliases),
            activation_context: clone_terms(&self.activation_context),
            terms: clone_terms(&self.terms),
        }
    }
}

/// Copies a list of corpus definitions.
pub fn clone_definitions(v: &Vec<CorpusDefinition>) -> (r: Vec<CorpusDefinition>)
    ensures
        definitions_view(r@) == definitions_view(v@),
{
    let mut r: Vec<CorpusDefinition> = Vec::new();
    let mut i: usize = 0;
    while i < v.len()
        invariant
            0 <= i <= v@.len(),
            definitions_view(r@) == definitions_view(v@.take(i as int)),
        decreases v@.len() - i,
    {
        let d = v[i].clone();
        r.push(d);
        assert(definitions_view(v@.take(i + 1)) =~= definitions_view(v@.take(i as int)).push(v@[i as int]@));
        assert(definitions_view(r@) =~= definitions_view(v@.take(i as int)).push(v@[i as int]@));
        i = i + 1;
    }
    assert(v@.take(v@.len() as int) =~= v@);
    r
}

/// A list of terms is acceptable when it has at most `maximum` entries and
/// every entry is a valid term.
pub open spec fn valid_term_list(terms: Seq<Seq<Seq<char>>>, maximum: int) -> bool {
    &&& terms.len() <= maximum
    &&& forall|k: int| 0 <= k < terms.len() ==> valid_term_values(#[trigger] terms[k])
}

/// The validity rule of a corpus definition.
pub open spec fn valid_definition(d: DefinitionView) -> bool {
    &&& d.schema == CORPUS_SCHEMA@
    &&& valid_id(d.id)
    &&& valid_id(d.domain)
    &&& valid_id(d.subdomain)
    &&& !is_blank(d.title)
    &&& !d.title.contains('\r')
    &&& !d.title.contains('\n')
    &&& valid_term_list(d.triggers, MAX_TRIGGERS as int)
    &&& valid_term_list(d.trigger_aliases, MAX_TRIGGERS as int)
    &&& valid_term_list(d.activation_context, MAX_TRIGGERS as int)
    &&& valid_term_list(d.terms, MAX_TERMS as int)
    &&& d.terms.len() > 0
    &&& (d.activation == CorpusActivation::OnEvidence ==> d.triggers.len() > 0
        || d.trigger_aliases.len() > 0)
}

/// Checks a list of terms of corpus `corpus_id`.
pub fn validate_terms(corpus_id: &str, label: &str, terms: &Vec<CorpusTerm>, maximum: usize) -> (r:
    Result<(), String>)
    ensures
        r is Ok <==> valid_term_list(terms_view(terms@), maximum as int),
{
    if terms.len() > maximum {
        return Err(message(&["corpus ", corpus_id, " contains too many ", label]));
    }
    let mut i: usize = 0;
    while i < terms.len()
        invariant
            0 <= i <= terms@.len(),
            terms@.len() <= maximum,
            forall|k: int| 0 <= k < i ==> valid_term_values(#[trigger] terms_view(terms@)[k]),
        decreases terms@.len() - i,
    {
        assert(terms_view(terms@)[i as int] == terms@[i as int]@);
        let label = message(&["corpus ", corpus_id, " ", label, " entry"]);
        match terms[i].validate(label.as_str()) {
            Ok(()) => {},
            Err(e) => {
                return Err(e);
            },
        }
        i = i + 1;
    }
    Ok(())
}

impl CorpusDefinition {
    /// Checks the validity rule of a corpus definition.
    pub fn validate(&self) -> (r: Result<(), String>)
        ensures
            r is Ok <==> valid_definition(self@),
    {
        if !str_eq(self.schema.as_str(), CORPUS_SCHEMA) {
            return Err(message(&["corpus ", self.id.as_str(), " uses an unsupported schema; expected xrtranslate-corpus/v1"]));
        }
        match check_id(self.id.as_str(), "id") {
            Ok(()) => {},
            Err(e) => {
                return Err(e);
            },
        }
        match check_id(self.domain.as_str(), "domain") {
            Ok(()) => {},
            Err(e) => {
                return Err(e);
            },
        }
        match check_id(self.subdomain.as_str(), "subdomain") {
            Ok(()) => {},
            Err(e) => {
                return Err(e);
            },
        }
        let title = chars_of(self.title.as_str());
        if is_blank_chars(title.as_slice()) || contains_char(title.as_slice(), '\r')
            || contains_char(title.as_slice(), '\n') {
            return Err(message(&["corpus ", self.id.as_str(), " has an empty or multi-line title"]));
        }
        match validate_terms(self.id.as_str(), "triggers", &self.triggers, MAX_TRIGGERS) {
            Ok(()) => {},
            Err(e) => {
                return Err(e);
            },
        }
        match validate_terms(self.id.as_str(), "trigger aliases", &self.trigger_aliases, MAX_TRIGGERS) {
            Ok(()) => {},
            Err(e) => {
                return Err(e);
            },
        }
        match validate_terms(self.id.as_str(), "activation context", &self.activation_context, MAX_TRIGGERS) {
            Ok(()) => {},
            Err(e) => {
                return Err(e);
            },
        }
        match validate_terms(self.id.as_str(), "terms", &self.terms, MAX_TERMS) {
            Ok(()) => {},
            Err(e) => {
                return Err(e);
            },
        }
        if self.terms.len() == 0 || (self.activation == CorpusActivation::OnEvidence
            && self.triggers.len() == 0 && self.trigger_aliases.len() == 0) {
            return Err(message(&["corpus ", self.id.as_str(), " must contain at least one term, and evidence-activated corpora need at least one trigger"]));
        }
        Ok(())
    }
}

/// No two definitions share an identifier.
pub open spec fn unique_ids(corpora: Seq<DefinitionView>) -> bool {
    forall|i: int, j: int|
        0 <= i < j < corpora.len() ==> (#[trigger] corpora[i]).id != (#[trigger] corpora[j]).id
}

/// Checks that corpus identifiers are unique.
pub fn validate_unique(corpora: &Vec<CorpusDefinition>) -> (r: Result<(), String>)
    ensures
        r is Ok <==> unique_ids(definitions_view(corpora@)),
{
    let ghost view = definitions_view(corpora@);
    let n = corpora.len();
    let mut j: usize = 0;
    while j < n
        invariant
            n == corpora@.len(),
            view == definitions_view(corpora@),
            0 <= j <= n,
            forall|a: int, b: int|
                0 <= a < b < j ==> (#[trigger] view[a]).id != (#[trigger] view[b]).id,
        decreases n - j,
    {
        let mut i: usize = 0;
        while i < j
            invariant
                n == corpora@.len(),
                view == definitions_view(corpora@),
                0 <= i <= j < n,
                forall|a: int| 0 <= a < i ==> (#[trigger] view[a]).id != view[j as int].id,
            decreases j - i,
        {
            assert(view[i as int].id == corpora@[i as int].id@);
            assert(view[j as int].id == corpora@[j as int].id@);
            if str_eq(corpora[i].id.as_str(), corpora[j].id.as_str()) {
                return Err(message(&["duplicate corpus ID ", corpora[j].id.as_str()]));
            }
            i = i + 1;
        }
        j = j + 1;
    }
    Ok(())
}

/// The rule for provider identifiers: non-empty, lowercase ASCII letters,
/// digits and `-` only.
pub open spec fn valid_provider_id_spec(v: Seq<char>) -> bool {
    v.len() > 0 && forall|k: int| 0 <= k < v.len() ==> crate::text::is_provider_char(#[trigger] v[k])
}

/// Checks a dynamic provider identifier.
pub fn valid_provider_id(value: &str) -> (r: bool)
    ensures
        r == valid_provider_id_spec(value@),
{
    let chars = chars_of(value);
    if chars.len() == 0 {
        return false;
    }
    let mut i: usize = 0;
    while i < chars.len()
        invariant
            0 <= i <= chars@.len(),
            chars@ == value@,
            forall|k: int| 0 <= k < i ==> crate::text::is_provider_char(#[trigger] chars@[k]),
        decreases chars@.len() - i,
    {
        let c = chars[i];
        if !(('a' <= c && c <= 'z') || ('0' <= c && c <= '9') || c == '-') {
            return false;
        }
        i = i + 1;
    }
    true
}

} // verus!
