//! Per-session context state: what was said, which topics are active, and
//! the snapshot each observation selects.

use vstd::prelude::*;

use crate::catalog::{CatalogView, CorpusCatalog, sorted_providers};
use crate::config::{ConfigView, CorpusConfig};
use crate::evidence::{compact_history_text, compact_text};
use crate::language::{is_auto, language_base, normalized_language_code};
use crate::order::{lemma_lt_asymmetric, lemma_lt_irreflexive, lemma_lt_total, lemma_lt_transitive, seq_lt, str_less};
use crate::prompt::{HistoryTurn, HistoryView, hv, sv};
use crate::activation::{matching_corpora_in, matching_corpora_spec};
use crate::budget::{asr_prompt_spec, build_asr_prompt, build_translation_prompt, translation_prompt_spec};
use crate::catalog::{catalog_after_snapshot, catalog_snapshot_spec};
use crate::corpus::{CorpusActivation, CorpusDefinition, DefinitionView, definitions_view};
use crate::evidence::{current_evidence, evidence_texts, history_evidence, runtime_extra, runtime_extra_exec};
use crate::fold::fold_chars_of;
use crate::language::{task_languages, task_languages_spec};
use crate::matching::match_rows_spec;
use crate::prompt::{build_asr_echo_guard, echo_guard_spec, join_strings, turn_texts};
use crate::rows::{RowView, SelectedPromptTerm, rv};
use crate::selection::{
    activation_rows_spec, context_rows_spec, selected_activation_rows,
    selected_recognition_context_rows, selected_term_rows, term_rows_spec,
};
use crate::snapshot::{PromptContextSnapshot, SnapshotView, empty_snapshot, row_matches};
use crate::text::{chars_of, is_blank, is_blank_chars};
use crate::selection::{SelectedCorpus, SelectedView, cv};
use crate::text::{owned, str_eq};

verus! {

broadcast use vstd::string::group_string_axioms;

/// Advancing observations without evidence after which an active topic
/// becomes dormant.
pub const ACTIVE_CORPUS_IDLE_TURN_LIMIT: u8 = 3;

/// The mathematical content of a manager.
pub struct ManagerView {
    pub config: ConfigView,
    pub catalog: CatalogView,
    pub languages: Seq<Seq<char>>,
    pub transcripts: Seq<Seq<char>>,
    pub dialogue: Seq<HistoryView>,
    pub active: Seq<(Seq<char>, u8)>,
    pub dormant: Seq<Seq<char>>,
}

/// Per-session context state. Reset it whenever the audio route changes so
/// stale topics and languages cannot leak into a new route.
pub struct PromptContextManager {
    config: CorpusConfig,
    catalog: CorpusCatalog,
    current_languages: Vec<String>,
    transcript_history: Vec<String>,
    dialogue_history: Vec<HistoryTurn>,
    active_corpora: Vec<(String, u8)>,
    dormant_corpus_ids: Vec<String>,
}

/// The views of identifier/idle-turn pairs.
pub open spec fn idle_view(v: Seq<(String, u8)>) -> Seq<(Seq<char>, u8)> {
    v.map_values(|e: (String, u8)| (e.0@, e.1))
}

impl View for PromptContextManager {
    type V = ManagerView;

    closed spec fn view(&self) -> ManagerView {
        ManagerView {
            config: self.config@,
            catalog: self.catalog@,
            languages: sv(self.current_languages@),
            transcripts: sv(self.transcript_history@),
            dialogue: hv(self.dialogue_history@),
            active: idle_view(self.active_corpora@),
            dormant: sv(self.dormant_corpus_ids@),
        }
    }
}

/// The identifiers of the active topics.
pub open spec fn active_ids(a: Seq<(Seq<char>, u8)>) -> Seq<Seq<char>> {
    a.map_values(|e: (Seq<char>, u8)| e.0)
}

/// No identifier occurs twice.
pub open spec fn distinct(s: Seq<Seq<char>>) -> bool {
    forall|i: int, j: int| 0 <= i < j < s.len() ==> s[i] != s[j]
}

/// The manager's invariant.
pub open spec fn manager_wf(m: ManagerView) -> bool {
    &&& sorted_providers(m.catalog.dynamic)
    &&& m.transcripts.len() <= m.config.max_entries
    &&& m.dialogue.len() <= m.config.max_entries
    &&& distinct(active_ids(m.active))
}

/// Whether a configuration is refused.
pub open spec fn config_error(c: ConfigView) -> bool {
    ||| c.enabled && c.asr_max_chars < 256
    ||| c.enabled && c.translation_max_chars < 256
    ||| c.max_entries > 128
    ||| c.asr_history_entries > c.max_entries
    ||| c.translation_history_entries > c.max_entries
}

/// The message for the first rule a configuration breaks.
pub open spec fn config_message(c: ConfigView) -> Seq<char> {
    if c.enabled && c.asr_max_chars < 256 {
        "prompt_context.asr_max_chars must be at least 256 when enabled"@
    } else if c.enabled && c.translation_max_chars < 256 {
        "prompt_context.translation_max_chars must be at least 256 when enabled"@
    } else if c.max_entries > 128 {
        "prompt_context.max_entries must not exceed 128"@
    } else if c.asr_history_entries > c.max_entries {
        "prompt_context.asr_history_entries must not exceed max_entries"@
    } else {
        "prompt_context.translation_history_entries must not exceed max_entries"@
    }
}

/// A manager with no languages, history or topics.
pub open spec fn fresh_manager(config: ConfigView, catalog: CatalogView) -> ManagerView {
    ManagerView {
        config,
        catalog,
        languages: Seq::empty(),
        transcripts: Seq::empty(),
        dialogue: Seq::empty(),
        active: Seq::empty(),
        dormant: Seq::empty(),
    }
}

/// The manager with languages, history and topics cleared.
pub open spec fn cleared(m: ManagerView) -> ManagerView {
    fresh_manager(m.config, m.catalog)
}

/// Appends to a queue that holds at most `capacity` entries, dropping the
/// oldest when full.
pub open spec fn push_bounded<T>(q: Seq<T>, v: T, capacity: nat) -> Seq<T> {
    if q.len() >= capacity && q.len() > 0 {
        q.drop_first().push(v)
    } else {
        q.push(v)
    }
}

/// Whether two language lists hold the same languages (a reversed
/// bidirectional route).
pub open spec fn same_language_set(current: Seq<Seq<char>>, languages: Seq<Seq<char>>) -> bool {
    current.len() == languages.len() && forall|k: int|
        0 <= k < current.len() ==> languages.contains(#[trigger] current[k])
}

/// Switching to the task languages of an observation: the same or reversed
/// pair keeps topics and history; another pair starts over.
pub open spec fn switch_spec(m: ManagerView, languages: Seq<Seq<char>>) -> ManagerView {
    if m.languages == languages {
        m
    } else if m.languages.len() == 0 || same_language_set(m.languages, languages) {
        ManagerView { languages, ..m }
    } else {
        ManagerView { languages, ..cleared(m) }
    }
}

/// Recording a recognized transcript as evidence.
pub open spec fn record_transcript_spec(m: ManagerView, transcript: Seq<char>) -> ManagerView {
    let t = compact_text(transcript);
    if !m.config.enabled || m.config.max_entries == 0 || t.len() == 0 {
        m
    } else {
        ManagerView {
            transcripts: push_bounded(m.transcripts, t, m.config.max_entries as nat),
            ..m
        }
    }
}

/// Recording a transcript keeps the newest transcripts: when the evidence is
/// full the oldest transcript leaves and the new one comes last; otherwise
/// the new one is appended; an empty (after compaction) transcript or a
/// disabled or zero-capacity configuration changes nothing. Nothing but the
/// transcript evidence changes.
pub proof fn lemma_record_transcript_keeps_newest(m: ManagerView, transcript: Seq<char>)
    ensures
        ({
            let t = compact_text(transcript);
            let r = record_transcript_spec(m, transcript);
            &&& r.config == m.config && r.catalog == m.catalog && r.languages == m.languages
            &&& r.dialogue == m.dialogue && r.active == m.active && r.dormant == m.dormant
            &&& !m.config.enabled || m.config.max_entries == 0 || t.len() == 0 ==> r.transcripts == m.transcripts
            &&& m.config.enabled && m.config.max_entries > 0 && t.len() > 0 && m.transcripts.len()
                >= m.config.max_entries ==> r.transcripts == m.transcripts.drop_first().push(t)
            &&& m.config.enabled && m.config.max_entries > 0 && t.len() > 0 && m.transcripts.len()
                < m.config.max_entries ==> r.transcripts == m.transcripts.push(t)
        }),
{
}

/// Recording a translation either leaves the dialogue history as it was or
/// adds one turn at the end, dropping the oldest turn exactly when the
/// history was full; the new turn holds the base languages and compacted
/// texts of the pair. It is added whenever recording is enabled, both base
/// languages are known, not `auto` and different, both texts are non-empty
/// and the turn does not repeat the newest one. Nothing but the dialogue
/// history changes.
pub proof fn lemma_record_translation_keeps_newest(
    m: ManagerView,
    source_language: Seq<char>,
    target_language: Seq<char>,
    source_text: Seq<char>,
    translated_text: Seq<char>,
)
    ensures
        ({
            let r = record_translation_spec(m, source_language, target_language, source_text, translated_text);
            let turn = HistoryView {
                source_language: language_base(source_language),
                target_language: language_base(target_language),
                source_text: compact_text(source_text),
                translated_text: compact_text(translated_text),
            };
            &&& r.config == m.config && r.catalog == m.catalog && r.languages == m.languages
            &&& r.transcripts == m.transcripts && r.active == m.active && r.dormant == m.dormant
            &&& r.dialogue == m.dialogue || (m.config.max_entries > 0 && m.dialogue.len() >= m.config.max_entries
                && r.dialogue == m.dialogue.drop_first().push(turn)) || (m.dialogue.len() < m.config.max_entries
                && r.dialogue == m.dialogue.push(turn))
            &&& !m.config.enabled ==> r.dialogue == m.dialogue
            &&& m.config.enabled && m.config.max_entries > 0 && turn.source_language.len() > 0
                && turn.target_language.len() > 0 && !is_auto(turn.source_language) && !is_auto(
                turn.target_language,
            ) && turn.source_language != turn.target_language && turn.source_text.len() > 0
                && turn.translated_text.len() > 0 && !(m.dialogue.len() > 0 && m.dialogue.last() == turn) ==> {
                &&& m.dialogue.len() >= m.config.max_entries ==> r.dialogue == m.dialogue.drop_first().push(turn)
                &&& m.dialogue.len() < m.config.max_entries ==> r.dialogue == m.dialogue.push(turn)
            }
        }),
{
}

/// Recording a successful source/translation pair as dialogue history.
pub open spec fn record_translation_spec(
    m: ManagerView,
    source_language: Seq<char>,
    target_language: Seq<char>,
    source_text: Seq<char>,
    translated_text: Seq<char>,
) -> ManagerView {
    let sl = language_base(source_language);
    let tl = language_base(target_language);
    let st = compact_text(source_text);
    let tt = compact_text(translated_text);
    let turn = HistoryView {
        source_language: sl,
        target_language: tl,
        source_text: st,
        translated_text: tt,
    };
    if !m.config.enabled || m.config.max_entries == 0 || sl.len() == 0 || tl.len() == 0 || is_auto(sl)
        || is_auto(tl) || sl == tl || st.len() == 0 || tt.len() == 0 || (m.dialogue.len() > 0
        && m.dialogue.last() == turn) {
        m
    } else {
        ManagerView { dialogue: push_bounded(m.dialogue, turn, m.config.max_entries as nat), ..m }
    }
}

/// Inserts `x` after every element that does not sort after it.
pub open spec fn insert_id(s: Seq<Seq<char>>, x: Seq<char>) -> Seq<Seq<char>>
    decreases s.len(),
{
    if s.len() == 0 {
        seq![x]
    } else if seq_lt(x, s.last()) {
        insert_id(s.drop_last(), x).push(s.last())
    } else {
        s.push(x)
    }
}

/// Identifiers in ascending order.
pub open spec fn sort_ids(s: Seq<Seq<char>>) -> Seq<Seq<char>>
    decreases s.len(),
{
    if s.len() == 0 {
        s
    } else {
        insert_id(sort_ids(s.drop_last()), s.last())
    }
}

/// Whether identifiers are strictly ascending.
pub open spec fn ascending(s: Seq<Seq<char>>) -> bool {
    forall|i: int, j: int| 0 <= i < j < s.len() ==> seq_lt(s[i], s[j])
}

proof fn lemma_insert_id(s: Seq<Seq<char>>, x: Seq<char>)
    requires
        ascending(s),
        !s.contains(x),
    ensures
        ascending(insert_id(s, x)),
        insert_id(s, x).to_multiset() == s.to_multiset().insert(x),
    decreases s.len(),
{
    broadcast use vstd::seq_lib::group_to_multiset_ensures;

    if s.len() > 0 {
        let d = s.drop_last();
        let l = s.last();
        assert(s == d.push(l));
        if seq_lt(x, l) {
            assert(ascending(d));
            assert(!d.contains(x)) by {
                if d.contains(x) {
                    let k = choose|k: int| 0 <= k < d.len() && d[k] == x;
                    assert(s[k] == x);
                }
            }
            lemma_insert_id(d, x);
            let r = insert_id(d, x);
            assert forall|i: int, j: int| 0 <= i < j < r.push(l).len() implies seq_lt(
                r.push(l)[i],
                r.push(l)[j],
            ) by {
                if j == r.len() {
                    let e = r[i];
                    assert(r.to_multiset().count(e) > 0);
                    assert(d.to_multiset().insert(x).count(e) > 0);
                    if e != x {
                        assert(d.to_multiset().count(e) > 0);
                        assert(d.contains(e));
                        let k = choose|k: int| 0 <= k < d.len() && d[k] == e;
                        assert(s[k] == e && seq_lt(s[k], s[s.len() - 1]));
                    }
                }
            }
        } else {
            lemma_lt_total(x, l);
            assert(x != l) by {
                assert(s[s.len() - 1] == l);
            }
            assert forall|i: int, j: int| 0 <= i < j < s.push(x).len() implies seq_lt(
                s.push(x)[i],
                s.push(x)[j],
            ) by {
                if j == s.len() && i < s.len() - 1 {
                    assert(seq_lt(s[i], s[s.len() - 1]));
                    lemma_lt_transitive(s[i], l, x);
                }
            }
        }
    }
}

proof fn lemma_sort_ids(s: Seq<Seq<char>>)
    requires
        distinct(s),
    ensures
        ascending(sort_ids(s)),
        sort_ids(s).to_multiset() == s.to_multiset(),
    decreases s.len(),
{
    broadcast use vstd::seq_lib::group_to_multiset_ensures;

    if s.len() > 0 {
        let d = s.drop_last();
        assert(distinct(d));
        lemma_sort_ids(d);
        assert(!sort_ids(d).contains(s.last())) by {
            if sort_ids(d).contains(s.last()) {
                assert(sort_ids(d).to_multiset().count(s.last()) > 0);
                assert(d.to_multiset().count(s.last()) > 0);
                let k = choose|k: int| 0 <= k < d.len() && d[k] == s.last();
                assert(s[k] == s[s.len() - 1]);
            }
        }
        lemma_insert_id(sort_ids(d), s.last());
        assert(s == d.push(s.last()));
    }
}

impl PromptContextManager {
    /// The manager's invariant.
    pub open spec fn wf(&self) -> bool {
        manager_wf(self@)
    }

    /// Checks the prompt limits of a configuration.
    pub fn validate(config: &CorpusConfig) -> (r: Result<(), String>)
        ensures
            match r {
                Ok(()) => !config_error(config@),
                Err(e) => config_error(config@) && e@ == config_message(config@),
            },
    {
        if config.enabled && config.asr_max_chars < 256 {
            return Err(owned("prompt_context.asr_max_chars must be at least 256 when enabled"));
        }
        if config.enabled && config.translation_max_chars < 256 {
            return Err(owned("prompt_context.translation_max_chars must be at least 256 when enabled"));
        }
        if config.max_entries > 128 {
            return Err(owned("prompt_context.max_entries must not exceed 128"));
        }
        if config.asr_history_entries > config.max_entries {
            return Err(owned("prompt_context.asr_history_entries must not exceed max_entries"));
        }
        if config.translation_history_entries > config.max_entries {
            return Err(owned("prompt_context.translation_history_entries must not exceed max_entries"));
        }
        Ok(())
    }

    /// A manager for a validated configuration over a catalog.
    pub fn new(config: CorpusConfig, catalog: CorpusCatalog) -> (r: Result<Self, String>)
        requires
            catalog.wf(),
        ensures
            match r {
                Ok(m) => !config_error(config@) && m.wf() && m@ == fresh_manager(config@, catalog@),
                Err(e) => config_error(config@) && e@ == config_message(config@),
            },
    {
        match Self::validate(&config) {
            Ok(()) => {},
            Err(e) => {
                return Err(e);
            },
        }
        let m = PromptContextManager {
            config,
            catalog,
            current_languages: Vec::new(),
            transcript_history: Vec::new(),
            dialogue_history: Vec::new(),
            active_corpora: Vec::new(),
            dormant_corpus_ids: Vec::new(),
        };
        proof {
            assert(m@.languages =~= Seq::<Seq<char>>::empty());
            assert(m@.transcripts =~= Seq::<Seq<char>>::empty());
            assert(m@.dialogue =~= Seq::<HistoryView>::empty());
            assert(m@.active =~= Seq::<(Seq<char>, u8)>::empty());
            assert(m@.dormant =~= Seq::<Seq<char>>::empty());
        }
        Ok(m)
    }

    /// Clears languages, history and topics.
    pub fn reset(&mut self)
        requires
            old(self).wf(),
        ensures
            final(self).wf(),
            final(self)@ == cleared(old(self)@),
    {
        self.current_languages.clear();
        self.transcript_history.clear();
        self.dialogue_history.clear();
        self.active_corpora.clear();
        self.dormant_corpus_ids.clear();
        proof {
            assert(self@.languages =~= Seq::<Seq<char>>::empty());
            assert(self@.transcripts =~= Seq::<Seq<char>>::empty());
            assert(self@.dialogue =~= Seq::<HistoryView>::empty());
            assert(self@.active =~= Seq::<(Seq<char>, u8)>::empty());
            assert(self@.dormant =~= Seq::<Seq<char>>::empty());
        }
    }

    /// Selects from `catalog` from now on, keeping languages, history and
    /// topics: the catalog a session shares with the service's providers
    /// and graph is handed in again before each selection.
    pub fn set_catalog(&mut self, catalog: CorpusCatalog)
        requires
            old(self).wf(),
            catalog.wf(),
        ensures
            final(self).wf(),
            final(self)@ == (ManagerView { catalog: catalog@, ..old(self)@ }),
    {
        self.catalog = catalog;
    }

    /// The identifiers of the active topics, in ascending order.
    pub fn active_corpus_ids(&self) -> (r: Vec<String>)
        requires
            self.wf(),
        ensures
            sv(r@) == sort_ids(active_ids(self@.active)),
            ascending(sv(r@)),
            sv(r@).to_multiset() == active_ids(self@.active).to_multiset(),
    {
        let ghost ids = active_ids(self@.active);
        let mut r: Vec<String> = Vec::new();
        assert(sv(r@) =~= sort_ids(ids.take(0)));
        let mut i: usize = 0;
        while i < self.active_corpora.len()
            invariant
                0 <= i <= self.active_corpora@.len(),
                ids == active_ids(idle_view(self.active_corpora@)),
                sv(r@) == sort_ids(ids.take(i as int)),
            decreases self.active_corpora@.len() - i,
        {
            assert(ids.take(i + 1).drop_last() =~= ids.take(i as int));
            assert(ids.take(i + 1).last() == self.active_corpora@[i as int].0@);
            let x = &self.active_corpora[i].0;
            let ghost s = sv(r@);
            let mut pos: usize = r.len();
            while pos > 0 && str_less(x.as_str(), r[pos - 1].as_str())
                invariant
                    0 <= pos <= r@.len(),
                    s == sv(r@),
                    forall|k: int| pos <= k < s.len() ==> seq_lt(x@, #[trigger] s[k]),
                decreases pos,
            {
                pos = pos - 1;
            }
            proof {
                lemma_insert_id_at(s, x@, pos as int);
            }
            r.insert(pos, x.clone());
            assert(sv(r@) =~= s.insert(pos as int, x@));
            i = i + 1;
        }
        assert(ids.take(ids.len() as int) =~= ids);
        proof {
            lemma_sort_ids(ids);
        }
        r
    }

    /// Moves to the task languages of an observation and returns them.
    fn switch_languages(&mut self, languages: Vec<String>) -> (r: Vec<String>)
        requires
            old(self).wf(),
        ensures
            final(self).wf(),
            sv(r@) == sv(languages@),
            final(self)@ == switch_spec(old(self)@, sv(languages@)),
    {
        let ghost m = self@;
        let ghost ls = sv(languages@);
        if strings_equal(&self.current_languages, &languages) {
            return languages;
        }
        if self.current_languages.len() == 0 {
            self.current_languages = crate::corpus::clone_strings(&languages);
            assert(self@ =~= ManagerView { languages: ls, ..m });
            return languages;
        }
        let mut same = self.current_languages.len() == languages.len();
        let mut k: usize = 0;
        while same && k < self.current_languages.len()
            invariant
                0 <= k <= self.current_languages@.len(),
                m == self@,
                ls == sv(languages@),
                same ==> self.current_languages@.len() == languages@.len(),
                same ==> forall|q: int| 0 <= q < k ==> ls.contains(#[trigger] m.languages[q]),
                !same ==> !same_language_set(m.languages, ls),
            decreases self.current_languages@.len() - k,
        {
            if !crate::language::strings_contain(&languages, self.current_languages[k].as_str()) {
                assert(m.languages[k as int] == self.current_languages@[k as int]@);
                same = false;
            }
            k = k + 1;
        }
        if same {
            self.current_languages = crate::corpus::clone_strings(&languages);
            assert(self@ =~= ManagerView { languages: ls, ..m });
            return languages;
        }
        self.transcript_history.clear();
        self.dialogue_history.clear();
        self.active_corpora.clear();
        self.dormant_corpus_ids.clear();
        self.current_languages = crate::corpus::clone_strings(&languages);
        proof {
            assert(self@.transcripts =~= Seq::<Seq<char>>::empty());
            assert(self@.dialogue =~= Seq::<HistoryView>::empty());
            assert(self@.active =~= Seq::<(Seq<char>, u8)>::empty());
            assert(self@.dormant =~= Seq::<Seq<char>>::empty());
            assert(self@ =~= ManagerView { languages: ls, ..cleared(m) });
        }
        languages
    }

    /// Stores user-visible recognized text as activation evidence only; it
    /// becomes bilingual history only once translated.
    pub fn record_transcript(&mut self, transcript: &str)
        requires
            old(self).wf(),
        ensures
            final(self).wf(),
            final(self)@ == record_transcript_spec(old(self)@, transcript@),
            old(self)@.config.enabled && old(self)@.config.max_entries > 0 && compact_text(transcript@).len() > 0
                && old(self)@.transcripts.len() >= old(self)@.config.max_entries ==> final(self)@.transcripts
                == old(self)@.transcripts.drop_first().push(compact_text(transcript@)),
            old(self)@.config.enabled && old(self)@.config.max_entries > 0 && compact_text(transcript@).len() > 0
                && old(self)@.transcripts.len() < old(self)@.config.max_entries ==> final(self)@.transcripts
                == old(self)@.transcripts.push(compact_text(transcript@)),
            final(self)@.dialogue == old(self)@.dialogue,
    {
        proof {
            lemma_record_transcript_keeps_newest(old(self)@, transcript@);
        }
        if !self.config.enabled || self.config.max_entries == 0 {
            return ;
        }
        let t = compact_history_text(transcript);
        if t.as_str().unicode_len() == 0 {
            return ;
        }
        let ghost m = self@;
        let ghost before = sv(self.transcript_history@);
        if self.transcript_history.len() >= self.config.max_entries && self.transcript_history.len() > 0 {
            self.transcript_history.remove(0);
            assert(sv(self.transcript_history@) =~= before.drop_first());
        }
        let ghost tv = t@;
        self.transcript_history.push(t);
        assert(sv(self.transcript_history@) =~= push_bounded(before, tv, m.config.max_entries as nat));
        assert(self@ =~= record_transcript_spec(m, transcript@));
    }

    /// Stores a successful source/translation pair, with per-segment route
    /// language codes (never `auto`), as history for later utterances.
    pub fn record_translation(
        &mut self,
        source_language: &str,
        target_language: &str,
        source_text: &str,
        translated_text: &str,
    )
        requires
            old(self).wf(),
        ensures
            final(self).wf(),
            final(self)@ == record_translation_spec(
                old(self)@,
                source_language@,
                target_language@,
                source_text@,
                translated_text@,
            ),
            ({
                let turn = HistoryView {
                    source_language: language_base(source_language@),
                    target_language: language_base(target_language@),
                    source_text: compact_text(source_text@),
                    translated_text: compact_text(translated_text@),
                };
                ||| final(self)@.dialogue == old(self)@.dialogue
                ||| old(self)@.config.max_entries > 0 && old(self)@.dialogue.len() >= old(self)@.config.max_entries
                    && final(self)@.dialogue == old(self)@.dialogue.drop_first().push(turn)
                ||| old(self)@.dialogue.len() < old(self)@.config.max_entries && final(self)@.dialogue == old(
                    self,
                )@.dialogue.push(turn)
            }),
            final(self)@.transcripts == old(self)@.transcripts,
    {
        proof {
            lemma_record_translation_keeps_newest(
                old(self)@,
                source_language@,
                target_language@,
                source_text@,
                translated_text@,
            );
        }
        if !self.config.enabled || self.config.max_entries == 0 {
            return ;
        }
        let sl = normalized_language_code(source_language);
        let tl = normalized_language_code(target_language);
        let st = compact_history_text(source_text);
        let tt = compact_history_text(translated_text);
        proof {
            reveal_strlit("auto");
            assert("auto"@ == seq!['a', 'u', 't', 'o']);
        }
        let sl_auto = str_eq(sl.as_str(), "auto");
        let tl_auto = str_eq(tl.as_str(), "auto");
        assert(sl_auto == is_auto(sl@));
        assert(tl_auto == is_auto(tl@));
        if sl.as_str().unicode_len() == 0 || tl.as_str().unicode_len() == 0 || sl_auto || tl_auto
            || str_eq(sl.as_str(), tl.as_str()) || st.as_str().unicode_len() == 0
            || tt.as_str().unicode_len() == 0 {
            return ;
        }
        let turn = HistoryTurn {
            source_language: sl,
            target_language: tl,
            source_text: st,
            translated_text: tt,
        };
        let n = self.dialogue_history.len();
        if n > 0 && same_turn(&self.dialogue_history[n - 1], &turn) {
            assert(self@.dialogue.last() == self.dialogue_history@[n - 1]@);
            return ;
        }
        let ghost m = self@;
        let ghost before = hv(self.dialogue_history@);
        if self.dialogue_history.len() >= self.config.max_entries && self.dialogue_history.len() > 0 {
            self.dialogue_history.remove(0);
            assert(hv(self.dialogue_history@) =~= before.drop_first());
        }
        let ghost tv = turn@;
        self.dialogue_history.push(turn);
        assert(hv(self.dialogue_history@) =~= push_bounded(before, tv, m.config.max_entries as nat));
        assert(self@ =~= record_translation_spec(
            m,
            source_language@,
            target_language@,
            source_text@,
            translated_text@,
        ));
    }
}

/// Whether two language lists are equal.
fn strings_equal(a: &Vec<String>, b: &Vec<String>) -> (r: bool)
    ensures
        r == (sv(a@) == sv(b@)),
{
    if a.len() != b.len() {
        return false;
    }
    let mut i: usize = 0;
    while i < a.len()
        invariant
            0 <= i <= a@.len(),
            a@.len() == b@.len(),
            forall|k: int| 0 <= k < i ==> sv(a@)[k] == sv(b@)[k],
        decreases a@.len() - i,
    {
        if !str_eq(a[i].as_str(), b[i].as_str()) {
            assert(sv(a@)[i as int] != sv(b@)[i as int]);
            return false;
        }
        i = i + 1;
    }
    assert(sv(a@) =~= sv(b@));
    true
}

/// Whether two history turns are equal.
fn same_turn(a: &HistoryTurn, b: &HistoryTurn) -> (r: bool)
    ensures
        r == (a@ == b@),
{
    str_eq(a.source_language.as_str(), b.source_language.as_str()) && str_eq(
        a.target_language.as_str(),
        b.target_language.as_str(),
    ) && str_eq(a.source_text.as_str(), b.source_text.as_str()) && str_eq(
        a.translated_text.as_str(),
        b.translated_text.as_str(),
    )
}

/// Inserting at a position before which nothing sorts after `x`, and from
/// which everything does, is `insert_id`.
proof fn lemma_insert_id_at(s: Seq<Seq<char>>, x: Seq<char>, p: int)
    requires
        0 <= p <= s.len(),
        forall|k: int| p <= k < s.len() ==> seq_lt(x, #[trigger] s[k]),
        p > 0 ==> !seq_lt(x, s[p - 1]),
    ensures
        insert_id(s, x) == s.insert(p, x),
    decreases s.len(),
{
    if s.len() == 0 {
        assert(s.insert(0, x) =~= seq![x]);
    } else if p < s.len() {
        assert(seq_lt(x, s.last()));
        let d = s.drop_last();
        assert forall|k: int| p <= k < d.len() implies seq_lt(x, #[trigger] d[k]) by {
            assert(d[k] == s[k]);
        }
        if p > 0 {
            assert(d[p - 1] == s[p - 1]);
        }
        lemma_insert_id_at(d, x, p);
        assert(d.insert(p, x).push(s.last()) =~= s.insert(p, x));
    } else {
        assert(!seq_lt(x, s.last()));
        assert(s.push(x) =~= s.insert(p, x));
    }
}

// ---------------------------------------------------------------------------
// Topic activation state.
// ---------------------------------------------------------------------------

/// The identifiers of corpora the observation explicitly activates: evidence
/// corpora with current trigger matches, each once, in order.
pub open spec fn explicit_ids(cs: Seq<SelectedView>) -> Seq<Seq<char>>
    decreases cs.len(),
{
    if cs.len() == 0 {
        Seq::empty()
    } else {
        let head = explicit_ids(cs.drop_last());
        let c = cs.last();
        if c.definition.activation == CorpusActivation::OnEvidence && c.current_triggers.len() > 0
            && !head.contains(c.definition.id) {
            head.push(c.definition.id)
        } else {
            head
        }
    }
}

/// Whether a corpus of this identifier was selected.
pub open spec fn selected_id(cs: Seq<SelectedView>, id: Seq<char>) -> bool {
    exists|k: int| 0 <= k < cs.len() && (#[trigger] cs[k]).definition.id == id
}

/// Whether a selected corpus of this identifier had a terminology match in
/// the current observation.
pub open spec fn term_matched(cs: Seq<SelectedView>, id: Seq<char>) -> bool {
    exists|k: int|
        0 <= k < cs.len() && (#[trigger] cs[k]).definition.id == id && cs[k].current_terms.len() > 0
}

/// One more idle turn, saturating.
pub open spec fn next_idle(n: u8) -> u8 {
    if n < 255 {
        (n + 1) as u8
    } else {
        255
    }
}

/// Topic decay over the active topics in order: a topic no longer selected
/// is dropped; a terminology match resets its idle count; an advancing
/// observation without one adds an idle turn, and at the limit the topic
/// becomes dormant. Also reports whether any topic was dropped.
pub open spec fn decay(
    active: Seq<(Seq<char>, u8)>,
    dormant: Seq<Seq<char>>,
    cs: Seq<SelectedView>,
    advance: bool,
) -> (Seq<(Seq<char>, u8)>, Seq<Seq<char>>, bool)
    decreases active.len(),
{
    if active.len() == 0 {
        (Seq::empty(), dormant, false)
    } else {
        let (kept, dor, changed) = decay(active.drop_last(), dormant, cs, advance);
        let (id, n) = active.last();
        if !selected_id(cs, id) {
            (kept, dor, true)
        } else if term_matched(cs, id) {
            (kept.push((id, 0)), dor, changed)
        } else if !advance {
            (kept.push((id, n)), dor, changed)
        } else if next_idle(n) >= ACTIVE_CORPUS_IDLE_TURN_LIMIT {
            (kept, if dor.contains(id) {
                dor
            } else {
                dor.push(id)
            }, true)
        } else {
            (kept.push((id, next_idle(n))), dor, changed)
        }
    }
}

/// Whether every active topic has seen fewer idle turns than the limit.
pub open spec fn idle_below_limit(active: Seq<(Seq<char>, u8)>) -> bool {
    forall|k: int| 0 <= k < active.len() ==> (#[trigger] active[k]).1 < ACTIVE_CORPUS_IDLE_TURN_LIMIT
}

proof fn lemma_decay_below_limit(
    active: Seq<(Seq<char>, u8)>,
    dormant: Seq<Seq<char>>,
    cs: Seq<SelectedView>,
    advance: bool,
)
    requires
        idle_below_limit(active),
    ensures
        idle_below_limit(decay(active, dormant, cs, advance).0),
    decreases active.len(),
{
    if active.len() > 0 {
        assert(idle_below_limit(active.drop_last())) by {
            assert forall|k: int| 0 <= k < active.drop_last().len() implies (
            #[trigger] active.drop_last()[k]).1 < ACTIVE_CORPUS_IDLE_TURN_LIMIT by {
                assert(active.drop_last()[k] == active[k]);
            }
        }
        lemma_decay_below_limit(active.drop_last(), dormant, cs, advance);
        assert(active.last() == active[active.len() - 1]);
    }
}

/// A topic never stays active once it reaches the idle limit: if every
/// active topic is below the limit, it still is after any observation.
pub proof fn lemma_topics_below_idle_limit(
    active: Seq<(Seq<char>, u8)>,
    dormant: Seq<Seq<char>>,
    cs: Seq<SelectedView>,
    advance: bool,
)
    requires
        idle_below_limit(active),
    ensures
        idle_below_limit(update_active_spec(active, dormant, cs, advance).0),
{
    if explicit_ids(cs).len() == 0 && active.len() > 0 {
        lemma_decay_below_limit(active, dormant, cs, advance);
    }
}

proof fn lemma_decay_without_advance(
    active: Seq<(Seq<char>, u8)>,
    dormant: Seq<Seq<char>>,
    cs: Seq<SelectedView>,
)
    ensures
        decay(active, dormant, cs, false).1 == dormant,
        forall|k: int|
            0 <= k < decay(active, dormant, cs, false).0.len() ==> (#[trigger] decay(
                active,
                dormant,
                cs,
                false,
            ).0[k]).1 == 0 || active.contains(decay(active, dormant, cs, false).0[k]),
    decreases active.len(),
{
    if active.len() > 0 {
        lemma_decay_without_advance(active.drop_last(), dormant, cs);
        let kept = decay(active.drop_last(), dormant, cs, false).0;
        let r = decay(active, dormant, cs, false).0;
        assert forall|k: int| 0 <= k < r.len() implies (#[trigger] r[k]).1 == 0 || active.contains(
            r[k],
        ) by {
            if k < kept.len() {
                assert(r[k] == kept[k]);
                if kept[k].1 != 0 {
                    let j = choose|j: int| 0 <= j < active.drop_last().len() && active.drop_last()[j]
                        == kept[k];
                    assert(active[j] == kept[k]);
                }
            } else {
                assert(active[active.len() - 1] == active.last());
            }
        }
    }
}

/// An observation that does not advance the turn (a revision of the same
/// utterance) sends no topic to sleep and raises no idle count: every
/// active topic afterwards was active before with the same count, or was
/// just reset.
pub proof fn lemma_revision_keeps_idle_counts(
    active: Seq<(Seq<char>, u8)>,
    dormant: Seq<Seq<char>>,
    cs: Seq<SelectedView>,
)
    ensures
        explicit_ids(cs).len() == 0 ==> update_active_spec(active, dormant, cs, false).1
            == dormant,
        forall|k: int|
            0 <= k < update_active_spec(active, dormant, cs, false).0.len() ==> (
            #[trigger] update_active_spec(active, dormant, cs, false).0[k]).1 == 0
                || active.contains(update_active_spec(active, dormant, cs, false).0[k]),
{
    lemma_decay_without_advance(active, dormant, cs);
}

/// Switching languages: the same languages in any order (a reversed
/// bidirectional route), or a first route, keep topics and history; other
/// languages start over with nothing but the new languages.
pub proof fn lemma_switch_route(m: ManagerView, languages: Seq<Seq<char>>)
    ensures
        m.languages.len() == 0 || same_language_set(m.languages, languages) ==> switch_spec(
            m,
            languages,
        ) == (ManagerView { languages, ..m }),
        m.languages.len() > 0 && !same_language_set(m.languages, languages) ==> switch_spec(
            m,
            languages,
        ) == (ManagerView { languages, ..cleared(m) }),
{
    if m.languages == languages {
        assert forall|k: int| 0 <= k < m.languages.len() implies languages.contains(
            #[trigger] m.languages[k],
        ) by {
            assert(languages[k] == m.languages[k]);
        }
    }
}

/// The identifiers of `dormant` that are not in `ids`.
pub open spec fn without(dormant: Seq<Seq<char>>, ids: Seq<Seq<char>>) -> Seq<Seq<char>>
    decreases dormant.len(),
{
    if dormant.len() == 0 {
        dormant
    } else if ids.contains(dormant.last()) {
        without(dormant.drop_last(), ids)
    } else {
        without(dormant.drop_last(), ids).push(dormant.last())
    }
}

/// The active and dormant topics after an observation, and whether the set
/// of active topics shrank: an explicit activation replaces the active
/// topics (and wakes them); otherwise active topics decay.
pub open spec fn update_active_spec(
    active: Seq<(Seq<char>, u8)>,
    dormant: Seq<Seq<char>>,
    cs: Seq<SelectedView>,
    advance: bool,
) -> (Seq<(Seq<char>, u8)>, Seq<Seq<char>>, bool) {
    let ex = explicit_ids(cs);
    if ex.len() > 0 {
        (ex.map_values(|id: Seq<char>| (id, 0u8)), without(dormant, ex), false)
    } else if active.len() == 0 {
        (active, dormant, false)
    } else {
        decay(active, dormant, cs, advance)
    }
}

proof fn lemma_explicit_distinct(cs: Seq<SelectedView>)
    ensures
        distinct(explicit_ids(cs)),
    decreases cs.len(),
{
    if cs.len() > 0 {
        lemma_explicit_distinct(cs.drop_last());
    }
}

proof fn lemma_decay_subset(
    active: Seq<(Seq<char>, u8)>,
    dormant: Seq<Seq<char>>,
    cs: Seq<SelectedView>,
    advance: bool,
)
    ensures
        forall|k: int|
            0 <= k < active_ids(decay(active, dormant, cs, advance).0).len() ==> active_ids(
                active,
            ).contains(#[trigger] active_ids(decay(active, dormant, cs, advance).0)[k]),
        distinct(active_ids(active)) ==> distinct(active_ids(decay(active, dormant, cs, advance).0)),
    decreases active.len(),
{
    if active.len() > 0 {
        let d = active.drop_last();
        lemma_decay_subset(d, dormant, cs, advance);
        let kept = decay(d, dormant, cs, advance).0;
        let r = decay(active, dormant, cs, advance).0;
        let id = active.last().0;
        assert forall|k: int| 0 <= k < active_ids(kept).len() implies active_ids(active).contains(
            #[trigger] active_ids(kept)[k],
        ) by {
            let x = active_ids(kept)[k];
            assert(active_ids(d).contains(x));
            let q = choose|q: int| 0 <= q < active_ids(d).len() && active_ids(d)[q] == x;
            assert(active_ids(active)[q] == x);
        }
        assert(active_ids(active)[active.len() - 1] == id);
        if distinct(active_ids(active)) {
            assert(distinct(active_ids(d))) by {
                assert forall|i: int, j: int| 0 <= i < j < active_ids(d).len() implies active_ids(
                    d,
                )[i] != active_ids(d)[j] by {
                    assert(active_ids(active)[i] == active_ids(d)[i]);
                    assert(active_ids(active)[j] == active_ids(d)[j]);
                }
            }
            assert(!active_ids(kept).contains(id)) by {
                if active_ids(kept).contains(id) {
                    let q = choose|q: int| 0 <= q < active_ids(kept).len() && active_ids(kept)[q] == id;
                    assert(active_ids(d).contains(id));
                    let z = choose|z: int| 0 <= z < active_ids(d).len() && active_ids(d)[z] == id;
                    assert(active_ids(active)[z] == id);
                }
            }
        }
        assert forall|k: int| 0 <= k < active_ids(r).len() implies active_ids(active).contains(
            #[trigger] active_ids(r)[k],
        ) by {
            if k < active_ids(kept).len() {
                assert(active_ids(r)[k] == active_ids(kept)[k]);
            } else {
                assert(active_ids(r)[k] == id);
            }
        }
        if distinct(active_ids(active)) {
            assert forall|i: int, j: int| 0 <= i < j < active_ids(r).len() implies active_ids(r)[i]
                != active_ids(r)[j] by {
                if j >= active_ids(kept).len() {
                    assert(active_ids(r)[j] == id);
                    assert(active_ids(r)[i] == active_ids(kept)[i]);
                    assert(active_ids(kept).contains(active_ids(kept)[i]));
                } else {
                    assert(active_ids(r)[i] == active_ids(kept)[i]);
                    assert(active_ids(r)[j] == active_ids(kept)[j]);
                }
            }
        }
    }
}

proof fn lemma_update_distinct(
    active: Seq<(Seq<char>, u8)>,
    dormant: Seq<Seq<char>>,
    cs: Seq<SelectedView>,
    advance: bool,
)
    requires
        distinct(active_ids(active)),
    ensures
        distinct(active_ids(update_active_spec(active, dormant, cs, advance).0)),
{
    let ex = explicit_ids(cs);
    if ex.len() > 0 {
        lemma_explicit_distinct(cs);
        assert(active_ids(ex.map_values(|id: Seq<char>| (id, 0u8))) =~= ex);
    } else if active.len() > 0 {
        lemma_decay_subset(active, dormant, cs, advance);
    }
}

impl PromptContextManager {
    /// Whether a corpus is selected in `corpora`, and whether it had a
    /// terminology match.
    fn selection_of(corpora: &Vec<SelectedCorpus>, id: &str) -> (r: (bool, bool))
        ensures
            r.0 == selected_id(cv(corpora@), id@),
            r.1 == term_matched(cv(corpora@), id@),
    {
        let ghost cs = cv(corpora@);
        let mut selected = false;
        let mut matched = false;
        let mut k: usize = 0;
        while k < corpora.len()
            invariant
                0 <= k <= corpora@.len(),
                cs == cv(corpora@),
                selected == exists|q: int| 0 <= q < k && (#[trigger] cs[q]).definition.id == id@,
                matched == exists|q: int|
                    0 <= q < k && (#[trigger] cs[q]).definition.id == id@ && cs[q].current_terms.len()
                        > 0,
            decreases corpora@.len() - k,
        {
            assert(cs[k as int] == corpora@[k as int]@);
            if str_eq(corpora[k].definition.id.as_str(), id) {
                selected = true;
                if corpora[k].current_terms.len() > 0 {
                    matched = true;
                }
            }
            k = k + 1;
        }
        (selected, matched)
    }

    /// Updates the topic state from the corpora an observation selected and
    /// reports whether an active topic was dropped.
    fn update_active_corpora(&mut self, corpora: &Vec<SelectedCorpus>, advance_turn: bool) -> (r: bool)
        requires
            old(self).wf(),
        ensures
            final(self).wf(),
            ({
                let (a, d, changed) = update_active_spec(
                    old(self)@.active,
                    old(self)@.dormant,
                    cv(corpora@),
                    advance_turn,
                );
                final(self)@ == ManagerView { active: a, dormant: d, ..old(self)@ } && r == changed
            }),
    {
        let ghost m = self@;
        let ghost cs = cv(corpora@);
        proof {
            lemma_update_distinct(m.active, m.dormant, cs, advance_turn);
        }
        // Explicitly matched corpora.
        let mut explicit: Vec<String> = Vec::new();
        let mut i: usize = 0;
        while i < corpora.len()
            invariant
                0 <= i <= corpora@.len(),
                cs == cv(corpora@),
                sv(explicit@) == explicit_ids(cs.take(i as int)),
            decreases corpora@.len() - i,
        {
            assert(cs.take(i + 1).drop_last() =~= cs.take(i as int));
            assert(cs.take(i + 1).last() == corpora@[i as int]@);
            let c = &corpora[i];
            if c.definition.activation == CorpusActivation::OnEvidence && c.current_triggers.len() > 0
                && !crate::language::strings_contain(&explicit, c.definition.id.as_str()) {
                let ghost before = sv(explicit@);
                explicit.push(c.definition.id.clone());
                assert(sv(explicit@) =~= before.push(c.definition.id@));
            }
            i = i + 1;
        }
        assert(cs.take(cs.len() as int) =~= cs);
        let ghost ex = sv(explicit@);
        if explicit.len() > 0 {
            let mut fresh: Vec<(String, u8)> = Vec::new();
            let mut j: usize = 0;
            while j < explicit.len()
                invariant
                    0 <= j <= explicit@.len(),
                    ex == sv(explicit@),
                    idle_view(fresh@) == ex.take(j as int).map_values(|id: Seq<char>| (id, 0u8)),
                decreases explicit@.len() - j,
            {
                let ghost before = idle_view(fresh@);
                fresh.push((explicit[j].clone(), 0));
                assert(idle_view(fresh@) =~= before.push((ex[j as int], 0u8)));
                assert(ex.take(j + 1).map_values(|id: Seq<char>| (id, 0u8)) =~= ex.take(j as int).map_values(
                    |id: Seq<char>| (id, 0u8),
                ).push((ex[j as int], 0u8)));
                j = j + 1;
            }
            assert(ex.take(ex.len() as int) =~= ex);
            let mut awake: Vec<String> = Vec::new();
            let ghost dv = sv(self.dormant_corpus_ids@);
            let mut q: usize = 0;
            while q < self.dormant_corpus_ids.len()
                invariant
                    0 <= q <= self.dormant_corpus_ids@.len(),
                    dv == sv(self.dormant_corpus_ids@),
                    ex == sv(explicit@),
                    sv(awake@) == without(dv.take(q as int), ex),
                decreases self.dormant_corpus_ids@.len() - q,
            {
                assert(dv.take(q + 1).drop_last() =~= dv.take(q as int));
                assert(dv.take(q + 1).last() == self.dormant_corpus_ids@[q as int]@);
                if !crate::language::strings_contain(&explicit, self.dormant_corpus_ids[q].as_str()) {
                    let ghost before = sv(awake@);
                    awake.push(self.dormant_corpus_ids[q].clone());
                    assert(sv(awake@) =~= before.push(dv[q as int]));
                }
                q = q + 1;
            }
            assert(dv.take(dv.len() as int) =~= dv);
            self.active_corpora = fresh;
            self.dormant_corpus_ids = awake;
            assert(self@ =~= ManagerView {
                active: ex.map_values(|id: Seq<char>| (id, 0u8)),
                dormant: without(m.dormant, ex),
                ..m
            });
            return false;
        }
        if self.active_corpora.len() == 0 {
            return false;
        }
        let ghost av = idle_view(self.active_corpora@);
        let mut kept: Vec<(String, u8)> = Vec::new();
        let mut dormant = crate::corpus::clone_strings(&self.dormant_corpus_ids);
        let mut changed = false;
        let mut k: usize = 0;
        assert(av.take(0) =~= Seq::<(Seq<char>, u8)>::empty());
        while k < self.active_corpora.len()
            invariant
                0 <= k <= self.active_corpora@.len(),
                av == idle_view(self.active_corpora@),
                cs == cv(corpora@),
                (idle_view(kept@), sv(dormant@), changed) == decay(
                    av.take(k as int),
                    m.dormant,
                    cs,
                    advance_turn,
                ),
            decreases self.active_corpora@.len() - k,
        {
            assert(av.take(k + 1).drop_last() =~= av.take(k as int));
            assert(av.take(k + 1).last() == (self.active_corpora@[k as int].0@, self.active_corpora@[k as int].1));
            let id = &self.active_corpora[k].0;
            let n = self.active_corpora[k].1;
            let (selected, matched) = Self::selection_of(corpora, id.as_str());
            let ghost kb = idle_view(kept@);
            let ghost db = sv(dormant@);
            if !selected {
                changed = true;
            } else if matched {
                kept.push((id.clone(), 0));
                assert(idle_view(kept@) =~= kb.push((id@, 0u8)));
            } else if !advance_turn {
                kept.push((id.clone(), n));
                assert(idle_view(kept@) =~= kb.push((id@, n)));
            } else {
                let next: u8 = if n < 255 {
                    n + 1
                } else {
                    255
                };
                if next >= ACTIVE_CORPUS_IDLE_TURN_LIMIT {
                    if !crate::language::strings_contain(&dormant, id.as_str()) {
                        dormant.push(id.clone());
                        assert(sv(dormant@) =~= db.push(id@));
                    }
                    changed = true;
                } else {
                    kept.push((id.clone(), next));
                    assert(idle_view(kept@) =~= kb.push((id@, next)));
                }
            }
            k = k + 1;
        }
        assert(av.take(av.len() as int) =~= av);
        self.active_corpora = kept;
        self.dormant_corpus_ids = dormant;
        assert(self@ =~= ManagerView {
            active: decay(m.active, m.dormant, cs, advance_turn).0,
            dormant: decay(m.active, m.dormant, cs, advance_turn).1,
            ..m
        });
        changed
    }
}

// ---------------------------------------------------------------------------
// Observations.
// ---------------------------------------------------------------------------

/// The views of a list of string slices.
pub open spec fn strs_view(h: Seq<&str>) -> Seq<Seq<char>> {
    h.map_values(|x: &str| x@)
}

/// The corpora an observation selects from a catalog snapshot, given the
/// manager's history and topics.
pub open spec fn observation_corpora(
    m: ManagerView,
    languages: Seq<Seq<char>>,
    hints: Seq<Seq<char>>,
    snapshot: Seq<DefinitionView>,
) -> Seq<SelectedView> {
    let extra = runtime_extra(snapshot, languages);
    matching_corpora_spec(
        snapshot,
        history_evidence(m.transcripts, m.dialogue, hints) + extra,
        current_evidence(hints) + extra,
        current_evidence(hints),
        active_ids(m.active),
        m.dormant,
    )
}

/// Whether one of the hints contains a value of the row.
pub open spec fn hint_names_row(hints: Seq<Seq<char>>, row: RowView) -> bool {
    exists|k: int| 0 <= k < hints.len() && match_rows_spec(#[trigger] hints[k], seq![row], None).len() > 0
}

/// The rows that the hints name (or, with `named` false, do not name).
pub open spec fn hinted_rows(rows: Seq<RowView>, hints: Seq<Seq<char>>, named: bool) -> Seq<RowView>
    decreases rows.len(),
{
    if rows.len() == 0 {
        rows
    } else if hint_names_row(hints, rows.last()) == named {
        hinted_rows(rows.drop_last(), hints, named).push(rows.last())
    } else {
        hinted_rows(rows.drop_last(), hints, named)
    }
}

/// Translation candidates: the rows the current hints name first, each
/// group in rank order.
pub open spec fn translation_candidates(rows: Seq<RowView>, hints: Seq<Seq<char>>) -> Seq<RowView> {
    hinted_rows(rows, hints, true) + hinted_rows(rows, hints, false)
}

/// The history turns whose two languages are both task languages.
pub open spec fn relevant_history(turns: Seq<HistoryView>, languages: Seq<Seq<char>>) -> Seq<HistoryView>
    decreases turns.len(),
{
    if turns.len() == 0 {
        turns
    } else if languages.contains(turns.last().source_language) && languages.contains(
        turns.last().target_language,
    ) {
        relevant_history(turns.drop_last(), languages).push(turns.last())
    } else {
        relevant_history(turns.drop_last(), languages)
    }
}

/// The snapshot an observation renders from the selected corpora under the
/// ASR and translation token budgets.
pub open spec fn snapshot_for(
    m: ManagerView,
    languages: Seq<Seq<char>>,
    hints: Seq<Seq<char>>,
    budgets: (usize, usize),
    corpora: Seq<SelectedView>,
) -> SnapshotView {
    let terms = term_rows_spec(corpora, languages);
    let turns = relevant_history(m.dialogue, languages);
    let (tp, tt, th) = translation_prompt_spec(
        languages,
        translation_candidates(terms, hints),
        turns,
        m.config.translation_history_entries as int,
        m.config.translation_max_chars as int,
        budgets.1 as int,
    );
    SnapshotView {
        languages,
        corpora,
        asr_prompt: asr_prompt_spec(terms, m.config.asr_max_chars as int, budgets.0 as int),
        asr_echo_guard: echo_guard_spec(m.transcripts, turns, m.config.asr_history_entries as int),
        translation_prompt: tp,
        translation_terms: tt,
        translation_history: th,
        activation_terms: activation_rows_spec(corpora, languages),
        recognition_context_terms: context_rows_spec(corpora, terms, languages),
    }
}

/// One observation: the manager after it and its snapshot (nothing when the
/// catalog snapshot `catalog` failed). A disabled manager, or one without
/// supported task languages, answers the empty snapshot.
pub open spec fn select_spec(
    m: ManagerView,
    source_language: Seq<char>,
    target_language: Seq<char>,
    hints: Seq<Seq<char>>,
    budgets: (usize, usize),
    advance: bool,
    catalog: Option<Seq<DefinitionView>>,
) -> (ManagerView, Option<SnapshotView>) {
    if !m.config.enabled {
        (m, Some(empty_snapshot()))
    } else {
        let languages = task_languages_spec(source_language, target_language);
        let m1 = switch_spec(m, languages);
        if languages.len() == 0 {
            (m1, Some(empty_snapshot()))
        } else {
            match catalog {
                None => (m1, None),
                Some(snapshot) => {
                    let first = observation_corpora(m1, languages, hints, snapshot);
                    let (a, d, changed) = update_active_spec(m1.active, m1.dormant, first, advance);
                    let m2 = ManagerView { active: a, dormant: d, ..m1 };
                    let corpora = if changed {
                        observation_corpora(m2, languages, hints, snapshot)
                    } else {
                        first
                    };
                    (m2, Some(snapshot_for(m2, languages, hints, budgets, corpora)))
                },
            }
        }
    }
}

/// One observation at time `now`: the selection of `select_spec` over the
/// catalog's snapshot at `now`. When the snapshot is taken (an enabled
/// manager with supported task languages), the catalog afterwards is the
/// catalog after that snapshot (see `catalog_after_snapshot`).
pub open spec fn select_at_spec(
    m: ManagerView,
    source_language: Seq<char>,
    target_language: Seq<char>,
    hints: Seq<Seq<char>>,
    budgets: (usize, usize),
    advance: bool,
    now: u64,
) -> (ManagerView, Option<SnapshotView>) {
    let (m1, s) = select_spec(
        m,
        source_language,
        target_language,
        hints,
        budgets,
        advance,
        snapshot_corpora(catalog_snapshot_spec(m.catalog, now)),
    );
    if m.config.enabled && task_languages_spec(source_language, target_language).len() > 0 {
        (ManagerView { catalog: catalog_after_snapshot(m.catalog, now), ..m1 }, s)
    } else {
        (m1, s)
    }
}

/// Every selection's prompts fit the configured character limits and the
/// requested token budgets: the ASR prompt within `asr_max_chars` and the
/// ASR budget, the translation prompt within `translation_max_chars` and the
/// translation budget.
pub proof fn lemma_selection_within_budgets(
    m: ManagerView,
    source_language: Seq<char>,
    target_language: Seq<char>,
    hints: Seq<Seq<char>>,
    budgets: (usize, usize),
    advance: bool,
    now: u64,
)
    ensures
        select_at_spec(m, source_language, target_language, hints, budgets, advance, now).1 matches Some(
            v,
        ) ==> {
            &&& v.asr_prompt matches Some(p) ==> crate::prompt::within_budget(
                p,
                m.config.asr_max_chars as int,
                budgets.0 as int,
            )
            &&& v.translation_prompt matches Some(p) ==> crate::prompt::within_budget(
                p,
                m.config.translation_max_chars as int,
                budgets.1 as int,
            )
        },
{
    let (m1, s) = select_spec(
        m,
        source_language,
        target_language,
        hints,
        budgets,
        advance,
        snapshot_corpora(catalog_snapshot_spec(m.catalog, now)),
    );
    if m.config.enabled {
        let languages = task_languages_spec(source_language, target_language);
        let m0 = switch_spec(m, languages);
        if languages.len() > 0 {
            if let Some(snapshot) = snapshot_corpora(catalog_snapshot_spec(m.catalog, now)) {
                let first = observation_corpora(m0, languages, hints, snapshot);
                let (a, d, changed) = update_active_spec(m0.active, m0.dormant, first, advance);
                let m2 = ManagerView { active: a, dormant: d, ..m0 };
                let corpora = if changed {
                    observation_corpora(m2, languages, hints, snapshot)
                } else {
                    first
                };
                let terms = term_rows_spec(corpora, languages);
                assert(m2.config == m.config);
                crate::budget::lemma_asr_prompt_within_budget(
                    terms,
                    m.config.asr_max_chars as int,
                    budgets.0 as int,
                );
                crate::budget::lemma_translation_prompt_within_budget(
                    languages,
                    translation_candidates(terms, hints),
                    relevant_history(m2.dialogue, languages),
                    m.config.translation_history_entries as int,
                    m.config.translation_max_chars as int,
                    budgets.1 as int,
                );
            }
        }
    }
}

/// The corpora of a catalog snapshot result.
pub open spec fn snapshot_corpora(r: Option<(Seq<DefinitionView>, u64)>) -> Option<Seq<DefinitionView>> {
    match r {
        Some((v, _)) => Some(v),
        None => None,
    }
}

/// Whether some hint is not blank (a new user turn).
pub open spec fn has_content(hints: Seq<Seq<char>>) -> bool {
    exists|k: int| 0 <= k < hints.len() && !is_blank(#[trigger] hints[k])
}

impl PromptContextManager {
    /// The texts of the evidence: transcripts, history pairs and hints.
    fn evidence_parts(&self, hints: &[&str]) -> (r: Vec<String>)
        ensures
            sv(r@) == evidence_texts(self@.transcripts, self@.dialogue, strs_view(hints@)),
    {
        let mut parts = crate::corpus::clone_strings(&self.transcript_history);
        let ghost dv = hv(self.dialogue_history@);
        let ghost base = sv(parts@);
        assert(base == self@.transcripts);
        let mut i: usize = 0;
        while i < self.dialogue_history.len()
            invariant
                0 <= i <= self.dialogue_history@.len(),
                dv == hv(self.dialogue_history@),
                sv(parts@) == base + turn_texts(dv.take(i as int)),
            decreases self.dialogue_history@.len() - i,
        {
            assert(dv.take(i + 1).drop_last() =~= dv.take(i as int));
            assert(dv.take(i + 1).last() == self.dialogue_history@[i as int]@);
            let ghost before = sv(parts@);
            parts.push(self.dialogue_history[i].source_text.clone());
            parts.push(self.dialogue_history[i].translated_text.clone());
            assert(sv(parts@) =~= before + seq![
                self.dialogue_history@[i as int].source_text@,
                self.dialogue_history@[i as int].translated_text@,
            ]);
            assert(sv(parts@) =~= base + turn_texts(dv.take(i + 1)));
            i = i + 1;
        }
        assert(dv.take(dv.len() as int) =~= dv);
        let ghost mid = sv(parts@);
        let ghost hs = strs_view(hints@);
        let mut j: usize = 0;
        while j < hints.len()
            invariant
                0 <= j <= hints@.len(),
                hs == strs_view(hints@),
                sv(parts@) == mid + hs.take(j as int),
            decreases hints@.len() - j,
        {
            let ghost before = sv(parts@);
            parts.push(owned(hints[j]));
            assert(sv(parts@) =~= before.push(hs[j as int]));
            assert(hs.take(j + 1) =~= hs.take(j as int).push(hs[j as int]));
            assert(sv(parts@) =~= mid + hs.take(j + 1));
            j = j + 1;
        }
        assert(hs.take(hs.len() as int) =~= hs);
        parts
    }

    /// The folded current hints.
    fn current_evidence_exec(hints: &[&str]) -> (r: Vec<char>)
        ensures
            r@ == current_evidence(strs_view(hints@)),
    {
        let mut parts: Vec<String> = Vec::new();
        let ghost hs = strs_view(hints@);
        let mut j: usize = 0;
        while j < hints.len()
            invariant
                0 <= j <= hints@.len(),
                hs == strs_view(hints@),
                sv(parts@) == hs.take(j as int),
            decreases hints@.len() - j,
        {
            let ghost before = sv(parts@);
            parts.push(owned(hints[j]));
            assert(sv(parts@) =~= before.push(hs[j as int]));
            assert(hs.take(j + 1) =~= hs.take(j as int).push(hs[j as int]));
            j = j + 1;
        }
        assert(hs.take(hs.len() as int) =~= hs);
        let joined = join_strings(parts.as_slice(), " ");
        fold_chars_of(joined.as_str())
    }

    /// The corpora an observation selects from a catalog snapshot.
    fn matching_corpora(&self, languages: &[String], hints: &[&str], snapshot: &Vec<CorpusDefinition>) -> (r:
        Vec<SelectedCorpus>)
        ensures
            cv(r@) == observation_corpora(
                self@,
                sv(languages@),
                strs_view(hints@),
                definitions_view(snapshot@),
            ),
    {
        let parts = self.evidence_parts(hints);
        let joined = join_strings(parts.as_slice(), " ");
        let mut evidence = fold_chars_of(joined.as_str());
        let current = Self::current_evidence_exec(hints);
        let mut activation = current.clone();
        let extra = runtime_extra_exec(snapshot, languages);
        let mut e1 = extra.clone();
        let mut e2 = extra.clone();
        evidence.append(&mut e1);
        activation.append(&mut e2);
        let active = self.active_id_list();
        matching_corpora_in(
            snapshot,
            evidence.as_slice(),
            activation.as_slice(),
            current.as_slice(),
            &active,
            &self.dormant_corpus_ids,
        )
    }

    /// The identifiers of the active topics, in state order.
    fn active_id_list(&self) -> (r: Vec<String>)
        ensures
            sv(r@) == active_ids(self@.active),
    {
        let ghost ids = active_ids(self@.active);
        let mut r: Vec<String> = Vec::new();
        let mut i: usize = 0;
        while i < self.active_corpora.len()
            invariant
                0 <= i <= self.active_corpora@.len(),
                ids == active_ids(idle_view(self.active_corpora@)),
                sv(r@) == ids.take(i as int),
            decreases self.active_corpora@.len() - i,
        {
            let ghost before = sv(r@);
            r.push(self.active_corpora[i].0.clone());
            assert(sv(r@) =~= before.push(ids[i as int]));
            assert(ids.take(i + 1) =~= ids.take(i as int).push(ids[i as int]));
            i = i + 1;
        }
        assert(ids.take(ids.len() as int) =~= ids);
        r
    }

    /// The history turns in the task languages.
    fn relevant_turns(&self, languages: &[String]) -> (r: Vec<HistoryTurn>)
        ensures
            hv(r@) == relevant_history(self@.dialogue, sv(languages@)),
    {
        let ghost dv = hv(self.dialogue_history@);
        let mut r: Vec<HistoryTurn> = Vec::new();
        let mut i: usize = 0;
        while i < self.dialogue_history.len()
            invariant
                0 <= i <= self.dialogue_history@.len(),
                dv == hv(self.dialogue_history@),
                hv(r@) == relevant_history(dv.take(i as int), sv(languages@)),
            decreases self.dialogue_history@.len() - i,
        {
            assert(dv.take(i + 1).drop_last() =~= dv.take(i as int));
            assert(dv.take(i + 1).last() == self.dialogue_history@[i as int]@);
            let t = &self.dialogue_history[i];
            if crate::language::strings_contain_slice(languages, t.source_language.as_str())
                && crate::language::strings_contain_slice(languages, t.target_language.as_str()) {
                let ghost before = hv(r@);
                r.push(t.clone());
                assert(hv(r@) =~= before.push(t@));
            }
            i = i + 1;
        }
        assert(dv.take(dv.len() as int) =~= dv);
        r
    }

    /// Renders the snapshot of an observation from its selected corpora.
    fn build_snapshot(
        &self,
        languages: Vec<String>,
        hints: &[&str],
        token_budgets: (usize, usize),
        corpora: Vec<SelectedCorpus>,
    ) -> (r: PromptContextSnapshot)
        ensures
            r@ == snapshot_for(self@, sv(languages@), strs_view(hints@), token_budgets, cv(corpora@)),
    {
        let terms = selected_term_rows(&corpora, languages.as_slice());
        let candidates = translation_candidates_exec(&terms, hints);
        let activation_terms = selected_activation_rows(&corpora, languages.as_slice());
        let recognition_context_terms = selected_recognition_context_rows(
            &corpora,
            terms.as_slice(),
            languages.as_slice(),
        );
        let turns = self.relevant_turns(languages.as_slice());
        let asr_echo_guard = build_asr_echo_guard(
            self.transcript_history.as_slice(),
            turns.as_slice(),
            self.config.asr_history_entries,
        );
        let (translation_prompt, translation_terms, translation_history) = build_translation_prompt(
            languages.as_slice(),
            candidates.as_slice(),
            turns.as_slice(),
            self.config.translation_history_entries,
            self.config.translation_max_chars,
            token_budgets.1,
        );
        let asr_prompt = build_asr_prompt(terms.as_slice(), self.config.asr_max_chars, token_budgets.0);
        let r = PromptContextSnapshot::from_parts(
            languages,
            corpora,
            asr_prompt,
            asr_echo_guard,
            translation_prompt,
            translation_terms,
            translation_history,
            activation_terms,
            recognition_context_terms,
        );
        proof {
            let tp = translation_prompt_spec(
                r@.languages,
                translation_candidates(rv(terms@), strs_view(hints@)),
                relevant_history(self@.dialogue, r@.languages),
                self@.config.translation_history_entries as int,
                self@.config.translation_max_chars as int,
                token_budgets.1 as int,
            );
            assert(r@.translation_prompt == tp.0);
            assert(r@.asr_prompt == asr_prompt_spec(
                rv(terms@),
                self@.config.asr_max_chars as int,
                token_budgets.0 as int,
            ));
        }
        r
    }

    /// One observation at time `now` on the catalog's clock (see
    /// `select_spec`); `advance_turn` is true only for the first observation
    /// of a user utterance, so later revisions may refresh a topic but not
    /// age it.
    pub fn select_observation_at(
        &mut self,
        source_language: &str,
        target_language: &str,
        hints: &[&str],
        token_budgets: (usize, usize),
        advance_turn: bool,
        now: u64,
    ) -> (r: Result<PromptContextSnapshot, String>)
        requires
            old(self).wf(),
        ensures
            final(self).wf(),
            ({
                let (m, s) = select_at_spec(
                    old(self)@,
                    source_language@,
                    target_language@,
                    strs_view(hints@),
                    token_budgets,
                    advance_turn,
                    now,
                );
                final(self)@ == m && match s {
                    Some(v) => r matches Ok(snapshot) && snapshot@ == v,
                    None => r is Err,
                }
            }),
    {
        if !self.config.enabled {
            return Ok(PromptContextSnapshot::empty());
        }
        let requested = task_languages(source_language, target_language);
        let languages = self.switch_languages(requested);
        if languages.len() == 0 {
            return Ok(PromptContextSnapshot::empty());
        }
        let snapshot = match self.catalog.snapshot_at(now) {
            Ok(v) => v,
            Err(e) => {
                return Err(e);
            },
        };
        let first = self.matching_corpora(languages.as_slice(), hints, &snapshot);
        let changed = self.update_active_corpora(&first, advance_turn);
        let corpora = if changed {
            self.matching_corpora(languages.as_slice(), hints, &snapshot)
        } else {
            first
        };
        Ok(self.build_snapshot(languages, hints, token_budgets, corpora))
    }

    /// One observation now (see `select_observation_at`).
    pub fn select_observation(
        &mut self,
        source_language: &str,
        target_language: &str,
        hints: &[&str],
        token_budgets: (usize, usize),
        advance_turn: bool,
    ) -> (r: Result<PromptContextSnapshot, String>)
        requires
            old(self).wf(),
        ensures
            final(self).wf(),
            exists|now: u64|
                {
                    let (m, s) = #[trigger] select_at_spec(
                        old(self)@,
                        source_language@,
                        target_language@,
                        strs_view(hints@),
                        token_budgets,
                        advance_turn,
                        now,
                    );
                    final(self)@ == m && match s {
                        Some(v) => r matches Ok(snapshot) && snapshot@ == v,
                        None => r is Err,
                    }
                },
    {
        let now = self.catalog.clock_millis();
        self.select_observation_at(source_language, target_language, hints, token_budgets, advance_turn, now)
    }

    /// Selects corpora once and renders the ASR and translation views under
    /// their own budgets; an observation with a non-blank hint is a new turn.
    pub fn select(
        &mut self,
        source_language: &str,
        target_language: &str,
        hints: &[&str],
        token_budgets: (usize, usize),
    ) -> (r: Result<PromptContextSnapshot, String>)
        requires
            old(self).wf(),
        ensures
            final(self).wf(),
            exists|now: u64|
                {
                    let (m, s) = #[trigger] select_at_spec(
                        old(self)@,
                        source_language@,
                        target_language@,
                        strs_view(hints@),
                        token_budgets,
                        has_content(strs_view(hints@)),
                        now,
                    );
                    final(self)@ == m && match s {
                        Some(v) => r matches Ok(snapshot) && snapshot@ == v,
                        None => r is Err,
                    }
                },
    {
        let ghost hs = strs_view(hints@);
        let mut advance = false;
        let mut k: usize = 0;
        while k < hints.len()
            invariant
                0 <= k <= hints@.len(),
                hs == strs_view(hints@),
                advance == exists|q: int| 0 <= q < k && !is_blank(#[trigger] hs[q]),
            decreases hints@.len() - k,
        {
            let chars = chars_of(hints[k]);
            assert(hs[k as int] == hints@[k as int]@);
            if !is_blank_chars(chars.as_slice()) {
                advance = true;
            }
            k = k + 1;
        }
        assert(advance == has_content(hs));
        let r = self.select_observation(source_language, target_language, hints, token_budgets, advance);
        proof {
            let now = choose|now: u64|
                {
                    let (m, s) = #[trigger] select_at_spec(
                        old(self)@,
                        source_language@,
                        target_language@,
                        hs,
                        token_budgets,
                        advance,
                        now,
                    );
                    final(self)@ == m && match s {
                        Some(v) => r matches Ok(snapshot) && snapshot@ == v,
                        None => r is Err,
                    }
                };
            assert(select_at_spec(
                old(self)@,
                source_language@,
                target_language@,
                hs,
                token_budgets,
                has_content(hs),
                now,
            ) == select_at_spec(
                old(self)@,
                source_language@,
                target_language@,
                hs,
                token_budgets,
                advance,
                now,
            ));
        }
        r
    }
}

/// Orders rows so that those a hint names come first (see
/// `translation_candidates`).
fn translation_candidates_exec(terms: &Vec<SelectedPromptTerm>, hints: &[&str]) -> (r: Vec<
    SelectedPromptTerm,
>)
    ensures
        rv(r@) == translation_candidates(rv(terms@), strs_view(hints@)),
{
    let ghost rows = rv(terms@);
    let ghost hs = strs_view(hints@);
    let mut named: Vec<SelectedPromptTerm> = Vec::new();
    let mut unnamed: Vec<SelectedPromptTerm> = Vec::new();
    let mut i: usize = 0;
    while i < terms.len()
        invariant
            0 <= i <= terms@.len(),
            rows == rv(terms@),
            hs == strs_view(hints@),
            rv(named@) == hinted_rows(rows.take(i as int), hs, true),
            rv(unnamed@) == hinted_rows(rows.take(i as int), hs, false),
        decreases terms@.len() - i,
    {
        assert(rows.take(i + 1).drop_last() =~= rows.take(i as int));
        assert(rows.take(i + 1).last() == terms@[i as int]@);
        let mut is_named = false;
        let mut k: usize = 0;
        while k < hints.len()
            invariant
                0 <= k <= hints@.len(),
                0 <= i < terms@.len(),
                hs == strs_view(hints@),
                is_named == exists|q: int|
                    0 <= q < k && match_rows_spec(#[trigger] hs[q], seq![terms@[i as int]@], None).len()
                        > 0,
            decreases hints@.len() - k,
        {
            assert(hs[k as int] == hints@[k as int]@);
            let found = row_matches(hints[k], &terms[i], None);
            if found.len() > 0 {
                is_named = true;
            }
            k = k + 1;
        }
        let ghost before_n = rv(named@);
        let ghost before_u = rv(unnamed@);
        if is_named {
            named.push(terms[i].clone());
            assert(rv(named@) =~= before_n.push(terms@[i as int]@));
        } else {
            unnamed.push(terms[i].clone());
            assert(rv(unnamed@) =~= before_u.push(terms@[i as int]@));
        }
        i = i + 1;
    }
    assert(rows.take(rows.len() as int) =~= rows);
    let ghost a = rv(named@);
    let ghost b = rv(unnamed@);
    named.append(&mut unnamed);
    assert(rv(named@) =~= a + b);
    named
}

} // verus!
