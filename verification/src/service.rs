//! One inference session of the local service: its context manager and the
//! immutable context snapshots handed to callers, at most
//! `MAX_SNAPSHOTS_PER_SESSION` of them.

use vstd::prelude::*;

use crate::correction::corrections_view;
use crate::manager::{
    ManagerView, PromptContextManager, has_content, record_transcript_spec,
    record_translation_spec, select_at_spec, strs_view,
};
use crate::matching::match_rows_spec;
use crate::protocol::{
    ContextBudgets, CorpusPromptTerm, PrepareAsrRequest, PrepareAsrResponse,
    PrepareTranslationRequest, PrepareTranslationResponse, RecordTranslationRequest,
    RecordTranslationResponse, SegmentContext, TranslationContextData, matches_view,
};
use crate::prompt::sv;
use crate::snapshot::{
    PromptContextSnapshot, SnapshotView, corrections_spec, prompt_terms, relevant_terms_spec,
};
use crate::language::language_base;
use crate::projection::{decimal, decimal_string};
use crate::text::{append_str, owned};

verus! {

broadcast use vstd::string::group_string_axioms;

/// The most context snapshots a session keeps; the oldest leaves first.
pub const MAX_SNAPSHOTS_PER_SESSION: usize = 12;

/// The context identifier after `n`: one more, stopping at the largest.
pub open spec fn next_id_spec(n: u64) -> u64 {
    if n < u64::MAX {
        (n + 1) as u64
    } else {
        n
    }
}

/// The snapshots after storing `v` under `id`: it replaces a snapshot of the
/// same identifier, and when more than `MAX_SNAPSHOTS_PER_SESSION` are held
/// the oldest leaves.
pub open spec fn store_insert(s: Seq<(u64, SnapshotView)>, id: u64, v: SnapshotView) -> Seq<
    (u64, SnapshotView),
> {
    let t = if s.len() > 0 && s.last().0 == id {
        s.drop_last().push((id, v))
    } else {
        s.push((id, v))
    };
    if t.len() > MAX_SNAPSHOTS_PER_SESSION {
        t.drop_first()
    } else {
        t
    }
}

/// The snapshot stored under `id`, if any.
pub open spec fn store_lookup(s: Seq<(u64, SnapshotView)>, id: u64) -> Option<SnapshotView> {
    if exists|k: int| 0 <= k < s.len() && (#[trigger] s[k]).0 == id {
        Some(s[choose|k: int| 0 <= k < s.len() && (#[trigger] s[k]).0 == id].1)
    } else {
        None
    }
}

/// A well-kept store: few enough snapshots, identifiers ascending, each
/// issued before `next` (or `next` has stopped at the largest).
pub open spec fn store_ok(s: Seq<(u64, SnapshotView)>, next: u64) -> bool {
    &&& s.len() <= MAX_SNAPSHOTS_PER_SESSION
    &&& forall|i: int, j: int| 0 <= i < j < s.len() ==> (#[trigger] s[i]).0 < (#[trigger] s[j]).0
    &&& forall|k: int| 0 <= k < s.len() ==> (#[trigger] s[k]).0 < next || next == u64::MAX
}

proof fn lemma_lookup_at(s: Seq<(u64, SnapshotView)>, next: u64, k: int)
    requires
        store_ok(s, next),
        0 <= k < s.len(),
    ensures
        store_lookup(s, s[k].0) == Some(s[k].1),
{
    let c = choose|c: int| 0 <= c < s.len() && (#[trigger] s[c]).0 == s[k].0;
    if c != k {
        if c < k {
            assert(s[c].0 < s[k].0);
        } else {
            assert(s[k].0 < s[c].0);
        }
    }
}

/// Storing a snapshot under the next identifier keeps the store bounded
/// and ordered, makes the snapshot retrievable under that identifier, and
/// leaves every other retained snapshot as it was.
pub proof fn lemma_store_insert(s: Seq<(u64, SnapshotView)>, next: u64, v: SnapshotView)
    requires
        store_ok(s, next),
    ensures
        store_ok(store_insert(s, next, v), next_id_spec(next)),
        store_insert(s, next, v).len() <= MAX_SNAPSHOTS_PER_SESSION,
        store_lookup(store_insert(s, next, v), next) == Some(v),
        forall|id: u64|
            id != next && (#[trigger] store_lookup(store_insert(s, next, v), id)) is Some
                ==> store_lookup(store_insert(s, next, v), id) == store_lookup(s, id),
{
    let replaced = s.len() > 0 && s.last().0 == next;
    let t = if replaced {
        s.drop_last().push((next, v))
    } else {
        s.push((next, v))
    };
    let r = store_insert(s, next, v);
    assert forall|i: int, j: int| 0 <= i < j < t.len() implies (#[trigger] t[i]).0 < (
    #[trigger] t[j]).0 by {
        if j == t.len() - 1 {
            assert(t[i] == s[i]);
            if !replaced {
                assert(s[i].0 < next || next == u64::MAX);
                if next == u64::MAX && s[i].0 == next {
                    if i < s.len() - 1 {
                        assert(s[i].0 < s[s.len() - 1].0);
                    }
                }
            } else {
                assert(s[i].0 < s[s.len() - 1].0);
            }
        } else {
            assert(t[i] == s[i] && t[j] == s[j]);
        }
    }
    assert forall|i: int, j: int| 0 <= i < j < r.len() implies (#[trigger] r[i]).0 < (
    #[trigger] r[j]).0 by {
        if t.len() > MAX_SNAPSHOTS_PER_SESSION {
            assert(r[i] == t[i + 1] && r[j] == t[j + 1]);
        } else {
            assert(r[i] == t[i] && r[j] == t[j]);
        }
    }
    assert forall|k: int| 0 <= k < r.len() implies (#[trigger] r[k]).0 < next_id_spec(next)
        || next_id_spec(next) == u64::MAX by {
        let q = if t.len() > MAX_SNAPSHOTS_PER_SESSION {
            k + 1
        } else {
            k
        };
        assert(r[k] == t[q]);
        if q < t.len() - 1 {
            assert(t[q] == s[q]);
        }
    }
    assert(store_ok(r, next_id_spec(next)));
    let last = r.len() - 1;
    assert(r[last] == (next, v));
    lemma_lookup_at(r, next_id_spec(next), last);
    assert forall|id: u64|
        id != next && (#[trigger] store_lookup(store_insert(s, next, v), id)) is Some implies store_lookup(
        store_insert(s, next, v),
        id,
    ) == store_lookup(s, id) by {
        let k = choose|k: int| 0 <= k < r.len() && (#[trigger] r[k]).0 == id;
        lemma_lookup_at(r, next_id_spec(next), k);
        let q = if t.len() > MAX_SNAPSHOTS_PER_SESSION {
            k + 1
        } else {
            k
        };
        assert(r[k] == t[q]);
        assert(q < t.len() - 1);
        assert(t[q] == s[q]);
        lemma_lookup_at(s, next, q);
    }
}

/// The name of the `n`th session: `session-` and `n` in decimal.
pub fn session_name(n: u64) -> (r: String)
    ensures
        r@ == "session-"@ + decimal(n as nat),
{
    let mut name = owned("session-");
    let digits = decimal_string(n as u128);
    append_str(&mut name, digits.as_str());
    name
}

/// How long an idle session is kept, in seconds: as configured, and at
/// least 30.
pub fn session_ttl_seconds(idle_seconds: u64) -> (r: u64)
    ensures
        r == if idle_seconds < 30 {
            30
        } else {
            idle_seconds
        },
{
    if idle_seconds < 30 {
        30
    } else {
        idle_seconds
    }
}

/// How often idle sessions are looked for, in milliseconds: half their
/// lifetime of `ttl_seconds`, between 15 and 60 seconds.
pub fn reaper_interval_millis(ttl_seconds: u64) -> (r: u64)
    ensures
        r == if ttl_seconds * 500 < 15000 {
            15000
        } else if ttl_seconds * 500 > 60000 {
            60000
        } else {
            ttl_seconds * 500
        },
{
    if ttl_seconds >= 120 {
        60_000
    } else if ttl_seconds <= 30 {
        15_000
    } else {
        ttl_seconds * 500
    }
}

/// The two token budgets of a request: ASR first, then translation.
pub fn budgets(value: ContextBudgets) -> (r: (usize, usize))
    ensures
        r == (value.asr_tokens, value.translation_tokens),
{
    (value.asr_tokens, value.translation_tokens)
}

/// Why a request could not be served.
#[derive(Debug)]
pub enum ServiceError {
    /// The request names a context snapshot the session no longer holds.
    ContextExpired(String),
    /// Context selection failed.
    Internal(String),
}

/// The mathematical content of a session.
pub struct SessionView {
    pub manager: ManagerView,
    pub snapshots: Seq<(u64, SnapshotView)>,
    pub next_context_id: u64,
}

/// An inference session: its context manager and the snapshots it handed
/// out, by context identifier.
pub struct CorpusSession {
    manager: PromptContextManager,
    snapshots: Vec<(u64, PromptContextSnapshot)>,
    next_context_id: u64,
}

/// The views of stored snapshots.
pub open spec fn stored_view(v: Seq<(u64, PromptContextSnapshot)>) -> Seq<(u64, SnapshotView)> {
    v.map_values(|e: (u64, PromptContextSnapshot)| (e.0, e.1@))
}

/// The segment context the service returns for one segment, given the
/// post-ASR snapshot `v` and the ASR snapshot `a`.
pub open spec fn segment_ok(s: SegmentContext, text: Seq<char>, v: SnapshotView, a: SnapshotView) -> bool {
    &&& s.corrected_text@ == text
    &&& s.prompt_terms@.map_values(|p: CorpusPromptTerm| p@) == prompt_terms(
        relevant_terms_spec(v, text),
    )
    &&& s.context_data.recent_turns@.len() == 0
    &&& s.context_data.previous_revision is None
    &&& s.context_data.surrounding_source is None
    &&& corrections_view(s.source_corrections@) == corrections_spec(a, text)
    &&& matches_view(s.activation_matches@) == match_rows_spec(text, v.activation_terms, None)
    &&& matches_view(s.context_matches@) == match_rows_spec(
        text,
        v.recognition_context_terms,
        None,
    )
}

impl View for CorpusSession {
    type V = SessionView;

    closed spec fn view(&self) -> SessionView {
        SessionView {
            manager: self.manager@,
            snapshots: stored_view(self.snapshots@),
            next_context_id: self.next_context_id,
        }
    }
}

impl CorpusSession {
    /// A well-kept session.
    pub open spec fn wf(&self) -> bool {
        &&& crate::manager::manager_wf(self@.manager)
        &&& store_ok(self@.snapshots, self@.next_context_id)
    }

    /// A session with no snapshots yet; the first context identifier is 1.
    pub fn new(manager: PromptContextManager) -> (r: Self)
        requires
            manager.wf(),
        ensures
            r.wf(),
            r@.manager == manager@,
            r@.snapshots.len() == 0,
            r@.next_context_id == 1,
    {
        let r = CorpusSession { manager, snapshots: Vec::new(), next_context_id: 1 };
        assert(r@.snapshots =~= Seq::<(u64, SnapshotView)>::empty());
        r
    }

    /// The session's context manager.
    pub fn manager(&self) -> (r: &PromptContextManager)
        ensures
            r@ == self@.manager,
    {
        &self.manager
    }

    /// Selects from `catalog` from now on (see
    /// `PromptContextManager::set_catalog`).
    pub fn set_catalog(&mut self, catalog: crate::catalog::CorpusCatalog)
        requires
            old(self).wf(),
            catalog.wf(),
        ensures
            final(self).wf(),
            final(self)@ == (SessionView {
                manager: ManagerView { catalog: catalog@, ..old(self)@.manager },
                ..old(self)@
            }),
    {
        self.manager.set_catalog(catalog);
    }

    /// How many snapshots are held.
    pub fn snapshot_count(&self) -> (r: usize)
        ensures
            r == self@.snapshots.len(),
    {
        self.snapshots.len()
    }

    /// The snapshot stored under a context identifier.
    pub fn context_snapshot(&self, context_id: u64) -> (r: Option<&PromptContextSnapshot>)
        requires
            self.wf(),
        ensures
            match store_lookup(self@.snapshots, context_id) {
                Some(v) => r matches Some(x) && x@ == v,
                None => r is None,
            },
    {
        let ghost s = self@.snapshots;
        let mut k: usize = 0;
        while k < self.snapshots.len()
            invariant
                0 <= k <= self.snapshots@.len(),
                s == stored_view(self.snapshots@),
                store_ok(s, self@.next_context_id),
                forall|q: int| 0 <= q < k ==> (#[trigger] s[q]).0 != context_id,
            decreases self.snapshots@.len() - k,
        {
            assert(s[k as int] == (self.snapshots@[k as int].0, self.snapshots@[k as int].1@));
            if self.snapshots[k].0 == context_id {
                proof {
                    lemma_lookup_at(s, self@.next_context_id, k as int);
                }
                return Some(&self.snapshots[k].1);
            }
            k = k + 1;
        }
        None
    }

    /// Stores a snapshot under the next context identifier and returns that
    /// identifier; the oldest snapshot leaves when too many are held.
    pub fn insert_snapshot(&mut self, snapshot: PromptContextSnapshot) -> (r: u64)
        requires
            old(self).wf(),
        ensures
            final(self).wf(),
            r == old(self)@.next_context_id,
            final(self)@.next_context_id == next_id_spec(r),
            final(self)@.manager == old(self)@.manager,
            final(self)@.snapshots == store_insert(old(self)@.snapshots, r, snapshot@),
            store_lookup(final(self)@.snapshots, r) == Some(snapshot@),
    {
        let ghost s = self@.snapshots;
        let ghost v = snapshot@;
        let context_id = self.next_context_id;
        proof {
            lemma_store_insert(s, context_id, v);
        }
        self.next_context_id = if context_id < u64::MAX {
            context_id + 1
        } else {
            context_id
        };
        let n = self.snapshots.len();
        if n > 0 && self.snapshots[n - 1].0 == context_id {
            assert(s.last().0 == context_id);
            let _ = self.snapshots.pop();
            assert(stored_view(self.snapshots@) =~= s.drop_last());
        }
        self.snapshots.push((context_id, snapshot));
        if self.snapshots.len() > MAX_SNAPSHOTS_PER_SESSION {
            let _ = self.snapshots.remove(0);
        }
        assert(stored_view(self.snapshots@) =~= store_insert(s, context_id, v));
        context_id
    }

    /// Prepares pre-ASR context: a selection without hints, stored as a new
    /// snapshot whose ASR prompt and echo guard are returned.
    pub fn prepare_asr(&mut self, request: &PrepareAsrRequest) -> (r: Result<PrepareAsrResponse, String>)
        requires
            old(self).wf(),
        ensures
            final(self).wf(),
            exists|now: u64|
                {
                    let (m, s) = #[trigger] select_at_spec(
                        old(self)@.manager,
                        request.source_language@,
                        request.target_language@,
                        Seq::empty(),
                        (request.budgets.asr_tokens, request.budgets.translation_tokens),
                        has_content(Seq::empty()),
                        now,
                    );
                    &&& final(self)@.manager == m
                    &&& match s {
                        Some(v) => r matches Ok(resp) && resp.context_id
                            == old(self)@.next_context_id && final(self)@.next_context_id
                            == next_id_spec(old(self)@.next_context_id) && final(self)@.snapshots
                            == store_insert(old(self)@.snapshots, resp.context_id, v)
                            && crate::dialogue::opt_view(resp.prompt) == v.asr_prompt && sv(
                            resp.echo_guard@,
                        ) == v.asr_echo_guard,
                        None => r is Err && final(self)@.snapshots == old(self)@.snapshots
                            && final(self)@.next_context_id == old(self)@.next_context_id,
                    }
                },
    {
        let no_hints: Vec<&str> = Vec::new();
        assert(strs_view(no_hints@) =~= Seq::<Seq<char>>::empty());
        let selected = self.manager.select(
            request.source_language.as_str(),
            request.target_language.as_str(),
            no_hints.as_slice(),
            budgets(request.budgets),
        );
        let snapshot = match selected {
            Ok(s) => s,
            Err(e) => {
                return Err(e);
            },
        };
        let prompt = snapshot.asr_prompt();
        let guard = snapshot.asr_echo_guard();
        let mut echo_guard: Vec<String> = Vec::new();
        let mut k: usize = 0;
        while k < guard.len()
            invariant
                0 <= k <= guard@.len(),
                sv(echo_guard@) == sv(guard@).take(k as int),
            decreases guard@.len() - k,
        {
            let ghost before = sv(echo_guard@);
            echo_guard.push(guard[k].clone());
            assert(sv(echo_guard@) =~= before.push(guard@[k as int]@));
            assert(sv(guard@).take(k + 1) =~= sv(guard@).take(k as int).push(guard@[k as int]@));
            k = k + 1;
        }
        assert(sv(guard@).take(guard@.len() as int) =~= sv(guard@));
        let context_id = self.insert_snapshot(snapshot);
        Ok(PrepareAsrResponse { context_id, prompt, echo_guard })
    }

    /// Prepares post-ASR context. The ASR snapshot named by the request must
    /// still be held. The recognized text is the evidence of a new
    /// selection, then recorded as a transcript; the response carries the
    /// recognized text, its correction candidates as data, and for each
    /// segment its terminology, matches and correction candidates.
    pub fn prepare_translation(&mut self, request: &PrepareTranslationRequest) -> (r: Result<
        PrepareTranslationResponse,
        ServiceError,
    >)
        requires
            old(self).wf(),
        ensures
            final(self).wf(),
            store_lookup(old(self)@.snapshots, request.asr_context_id) is None ==> (r matches Err(
                ServiceError::ContextExpired(message),
            ) && message@ == "ASR context snapshot has expired"@) && final(self)@ == old(self)@,
            store_lookup(old(self)@.snapshots, request.asr_context_id) matches Some(a)
                ==> exists|now: u64|
                {
                    let (m, s) = #[trigger] select_at_spec(
                        old(self)@.manager,
                        request.source_language@,
                        request.target_language@,
                        seq![request.recognized_text@],
                        (request.budgets.asr_tokens, request.budgets.translation_tokens),
                        has_content(seq![request.recognized_text@]),
                        now,
                    );
                    match s {
                        None => r matches Err(ServiceError::Internal(_)) && final(self)@.manager
                            == m && final(self)@.snapshots == old(self)@.snapshots
                            && final(self)@.next_context_id == old(self)@.next_context_id,
                        Some(v) => r matches Ok(resp) && final(self)@.manager
                            == record_transcript_spec(m, request.recognized_text@)
                            && resp.context_id == old(self)@.next_context_id
                            && final(self)@.next_context_id == next_id_spec(
                            old(self)@.next_context_id,
                        ) && final(self)@.snapshots == store_insert(
                            old(self)@.snapshots,
                            resp.context_id,
                            v,
                        ) && resp.corrected_text@ == request.recognized_text@ && corrections_view(
                            resp.source_corrections@,
                        ) == corrections_spec(a, request.recognized_text@)
                            && resp.segments@.len() == request.segments@.len() && forall|k: int|
                            0 <= k < resp.segments@.len() ==> segment_ok(
                                #[trigger] resp.segments@[k],
                                request.segments@[k]@,
                                v,
                                a,
                            ),
                    }
                },
    {
        let ghost a = store_lookup(self@.snapshots, request.asr_context_id);
        let (source_corrections, segment_corrections) = match self.context_snapshot(
            request.asr_context_id,
        ) {
            None => {
                return Err(ServiceError::ContextExpired(owned("ASR context snapshot has expired")));
            },
            Some(asr) => {
                let source_corrections = asr.recognition_corrections(request.recognized_text.as_str());
                let mut per_segment: Vec<Vec<crate::protocol::CorpusRecognitionCorrection>> =
                    Vec::new();
                let mut k: usize = 0;
                while k < request.segments.len()
                    invariant
                        0 <= k <= request.segments@.len(),
                        a == Some(asr@),
                        per_segment@.len() == k,
                        forall|q: int|
                            0 <= q < k ==> corrections_view(#[trigger] per_segment@[q]@)
                                == corrections_spec(asr@, request.segments@[q]@),
                    decreases request.segments@.len() - k,
                {
                    per_segment.push(asr.recognition_corrections(request.segments[k].as_str()));
                    k = k + 1;
                }
                (source_corrections, per_segment)
            },
        };
        let ghost av = a->0;
        let mut hints: Vec<&str> = Vec::new();
        hints.push(request.recognized_text.as_str());
        assert(strs_view(hints@) =~= seq![request.recognized_text@]);
        let selected = self.manager.select(
            request.source_language.as_str(),
            request.target_language.as_str(),
            hints.as_slice(),
            budgets(request.budgets),
        );
        let snapshot = match selected {
            Ok(s) => s,
            Err(e) => {
                return Err(ServiceError::Internal(e));
            },
        };
        self.manager.record_transcript(request.recognized_text.as_str());
        let mut segments: Vec<SegmentContext> = Vec::new();
        let mut corrections_left = segment_corrections;
        let ghost cl0 = corrections_left@;
        let mut k: usize = 0;
        while k < request.segments.len()
            invariant
                0 <= k <= request.segments@.len(),
                corrections_left@.len() == request.segments@.len() - k,
                cl0.len() == request.segments@.len(),
                forall|q: int|
                    0 <= q < cl0.len() ==> corrections_view(#[trigger] cl0[q]@) == corrections_spec(
                        av,
                        request.segments@[q]@,
                    ),
                forall|q: int|
                    0 <= q < corrections_left@.len() ==> #[trigger] corrections_left@[q] == cl0[q
                        + k],
                segments@.len() == k,
                forall|q: int|
                    0 <= q < k ==> segment_ok(
                        #[trigger] segments@[q],
                        request.segments@[q]@,
                        snapshot@,
                        av,
                    ),
            decreases request.segments@.len() - k,
        {
            let text = request.segments[k].as_str();
            let ghost cl = corrections_left@;
            let corrections = corrections_left.remove(0);
            assert(corrections == cl0[k as int]);
            assert forall|q: int| 0 <= q < corrections_left@.len() implies #[trigger] corrections_left@[q]
                == cl0[q + k + 1] by {
                assert(corrections_left@[q] == cl[q + 1]);
            }
            let segment = SegmentContext {
                corrected_text: owned(text),
                prompt_terms: snapshot.translation_prompt_terms_for(text),
                context_data: TranslationContextData::default(),
                source_corrections: corrections,
                activation_matches: snapshot.activation_matches(text),
                context_matches: snapshot.recognition_context_matches(text),
            };
            segments.push(segment);
            k = k + 1;
        }
        let context_id = self.insert_snapshot(snapshot);
        Ok(
            PrepareTranslationResponse {
                context_id,
                corrected_text: request.recognized_text.clone(),
                source_corrections,
                segments,
            },
        )
    }

    /// Records a completed translation. The translation snapshot named by
    /// the request must still be held; the response lists the terminology
    /// found in the translation, and the pair joins the dialogue history.
    pub fn record_translation(&mut self, request: &RecordTranslationRequest) -> (r: Result<
        RecordTranslationResponse,
        ServiceError,
    >)
        requires
            old(self).wf(),
        ensures
            final(self).wf(),
            final(self)@.snapshots == old(self)@.snapshots,
            final(self)@.next_context_id == old(self)@.next_context_id,
            match store_lookup(old(self)@.snapshots, request.context_id) {
                None => r matches Err(ServiceError::ContextExpired(message)) && message@
                    == "translation context snapshot has expired"@ && final(self)@.manager
                    == old(self)@.manager,
                Some(v) => r matches Ok(resp) && matches_view(resp.term_matches@)
                    == match_rows_spec(
                    request.translated_text@,
                    relevant_terms_spec(v, request.source_text@),
                    Some(language_base(request.target_language@)),
                ) && final(self)@.manager == record_translation_spec(
                    old(self)@.manager,
                    request.source_language@,
                    request.target_language@,
                    request.source_text@,
                    request.translated_text@,
                ),
            },
    {
        let term_matches = match self.context_snapshot(request.context_id) {
            None => {
                return Err(
                    ServiceError::ContextExpired(owned("translation context snapshot has expired")),
                );
            },
            Some(snapshot) => snapshot.translation_term_matches(
                request.source_text.as_str(),
                request.translated_text.as_str(),
                request.target_language.as_str(),
            ),
        };
        self.manager.record_translation(
            request.source_language.as_str(),
            request.target_language.as_str(),
            request.source_text.as_str(),
            request.translated_text.as_str(),
        );
        Ok(RecordTranslationResponse { term_matches })
    }
}

} // verus!
