//! Versioned wire types of the local corpus service.
//!
//! These are the plain data shapes; their JSON encodings live beside the
//! server and client, which convert to and from these types.

use vstd::prelude::*;

use crate::corpus::CorpusDefinition;
use crate::rows::pairs_view;
use crate::text::owned;

verus! {

/// Version of the HTTP API.
pub const API_VERSION: u16 = 1;

/// Where a matched term came from.
#[derive(Debug, PartialEq, Eq)]
pub struct CorpusTermSource {
    pub corpus_id: String,
    pub domain: String,
    pub subdomain: String,
    pub title: String,
}

/// The mathematical content of a term source.
pub struct SourceView {
    pub corpus_id: Seq<char>,
    pub domain: Seq<char>,
    pub subdomain: Seq<char>,
    pub title: Seq<char>,
}

impl View for CorpusTermSource {
    type V = SourceView;

    open spec fn view(&self) -> SourceView {
        SourceView {
            corpus_id: self.corpus_id@,
            domain: self.domain@,
            subdomain: self.subdomain@,
            title: self.title@,
        }
    }
}

impl Clone for CorpusTermSource {
    fn clone(&self) -> (r: Self)
        ensures
            r@ == self@,
    {
        CorpusTermSource {
            corpus_id: self.corpus_id.clone(),
            domain: self.domain.clone(),
            subdomain: self.subdomain.clone(),
            title: self.title.clone(),
        }
    }
}

/// The views of a list of sources.
pub open spec fn sources_view(v: Seq<CorpusTermSource>) -> Seq<SourceView> {
    v.map_values(|s: CorpusTermSource| s@)
}

/// One highlighted span of text, in UTF-8 byte offsets.
#[derive(Debug)]
pub struct CorpusTermMatch {
    pub start_byte: u32,
    pub end_byte: u32,
    pub text: String,
    pub sources: Vec<CorpusTermSource>,
}

/// The mathematical content of a term match.
pub struct MatchView {
    pub start_byte: u32,
    pub end_byte: u32,
    pub text: Seq<char>,
    pub sources: Seq<SourceView>,
}

impl View for CorpusTermMatch {
    type V = MatchView;

    open spec fn view(&self) -> MatchView {
        MatchView {
            start_byte: self.start_byte,
            end_byte: self.end_byte,
            text: self.text@,
            sources: sources_view(self.sources@),
        }
    }
}

/// The views of a list of matches.
pub open spec fn matches_view(v: Seq<CorpusTermMatch>) -> Seq<MatchView> {
    v.map_values(|m: CorpusTermMatch| m@)
}

/// A terminology row admitted to a model prompt.
#[derive(Debug)]
pub struct CorpusPromptTerm {
    pub values: Vec<(String, String)>,
    pub sources: Vec<CorpusTermSource>,
}

/// The mathematical content of a prompt term.
pub struct PromptTermView {
    pub values: Seq<(Seq<char>, Seq<char>)>,
    pub sources: Seq<SourceView>,
}

impl View for CorpusPromptTerm {
    type V = PromptTermView;

    open spec fn view(&self) -> PromptTermView {
        PromptTermView { values: pairs_view(self.values@), sources: sources_view(self.sources@) }
    }
}

/// A corpus-owned recognition correction candidate.
#[derive(Debug)]
pub struct CorpusRecognitionCorrection {
    pub start_byte: u32,
    pub end_byte: u32,
    pub original_text: String,
    pub corrected_text: String,
    pub sources: Vec<CorpusTermSource>,
}

/// The mathematical content of a correction.
pub struct CorrectionView {
    pub start_byte: u32,
    pub end_byte: u32,
    pub original_text: Seq<char>,
    pub corrected_text: Seq<char>,
    pub sources: Seq<SourceView>,
}

impl View for CorpusRecognitionCorrection {
    type V = CorrectionView;

    open spec fn view(&self) -> CorrectionView {
        CorrectionView {
            start_byte: self.start_byte,
            end_byte: self.end_byte,
            original_text: self.original_text@,
            corrected_text: self.corrected_text@,
            sources: sources_view(self.sources@),
        }
    }
}

/// Readiness report.
#[derive(Debug)]
pub struct HealthResponse {
    pub status: String,
    pub api_version: u16,
    pub server_version: String,
    pub corpus_count: usize,
    pub session_count: usize,
}

/// Body of a session creation request.
#[derive(Debug)]
pub struct CreateSessionRequest {}

/// Identifier of a new session.
#[derive(Debug)]
pub struct CreateSessionResponse {
    pub session_id: String,
}

/// Diagnostic state of one session.
#[derive(Debug)]
pub struct SessionStateResponse {
    pub session_id: String,
    pub active_corpus_ids: Vec<String>,
    pub snapshot_count: usize,
}

/// Token budgets of the active ASR and translation models.
#[derive(Clone, Copy, Debug)]
pub struct ContextBudgets {
    pub asr_tokens: usize,
    pub translation_tokens: usize,
}

/// Pre-ASR context request.
#[derive(Debug)]
pub struct PrepareAsrRequest {
    pub source_language: String,
    pub target_language: String,
    pub budgets: ContextBudgets,
}

/// Pre-ASR context.
#[derive(Debug)]
pub struct PrepareAsrResponse {
    pub context_id: u64,
    pub prompt: Option<String>,
    pub echo_guard: Vec<String>,
}

/// Post-ASR context request.
#[derive(Debug)]
pub struct PrepareTranslationRequest {
    pub asr_context_id: u64,
    /// Stable identifier of one user utterance; streaming revisions of the
    /// same utterance reuse it so topic decay advances only once.
    pub turn_id: Option<String>,
    /// Neutral speaker identity assigned by recognition infrastructure.
    pub speaker_id: String,
    pub source_language: String,
    pub target_language: String,
    pub recognized_text: String,
    pub segments: Vec<String>,
    pub budgets: ContextBudgets,
}

/// One completed earlier turn offered as translation context.
#[derive(Debug)]
pub struct BilingualContextTurn {
    pub turn_id: Option<String>,
    pub speaker_id: String,
    pub source_language: String,
    pub target_language: String,
    pub source_text: String,
    pub translated_text: String,
}

/// Source text surrounding one translation segment.
#[derive(Debug)]
pub struct SurroundingSourceContext {
    pub speaker_id: String,
    pub source_language: String,
    pub before: String,
    pub after: String,
}

/// Neutral, bounded conversation facts for one segment.
#[derive(Debug)]
pub struct TranslationContextData {
    pub recent_turns: Vec<BilingualContextTurn>,
    pub previous_revision: Option<BilingualContextTurn>,
    pub surrounding_source: Option<SurroundingSourceContext>,
}

impl Default for TranslationContextData {
    fn default() -> (r: Self)
        ensures
            r.recent_turns@.len() == 0,
            r.previous_revision is None,
            r.surrounding_source is None,
    {
        TranslationContextData {
            recent_turns: Vec::new(),
            previous_revision: None,
            surrounding_source: None,
        }
    }
}

/// Context of one translation segment.
#[derive(Debug)]
pub struct SegmentContext {
    pub corrected_text: String,
    pub prompt_terms: Vec<CorpusPromptTerm>,
    pub context_data: TranslationContextData,
    pub source_corrections: Vec<CorpusRecognitionCorrection>,
    pub activation_matches: Vec<CorpusTermMatch>,
    pub context_matches: Vec<CorpusTermMatch>,
}

/// Post-ASR context.
#[derive(Debug)]
pub struct PrepareTranslationResponse {
    pub context_id: u64,
    pub corrected_text: String,
    pub source_corrections: Vec<CorpusRecognitionCorrection>,
    pub segments: Vec<SegmentContext>,
}

/// A completed translation reported back to the session.
#[derive(Debug)]
pub struct RecordTranslationRequest {
    pub context_id: u64,
    /// Stable logical speech-turn identity; repeated IDs update the latest
    /// revision instead of appending overlap as a new turn.
    pub turn_id: Option<String>,
    pub speaker_id: String,
    pub source_language: String,
    pub target_language: String,
    pub source_text: String,
    pub translated_text: String,
}

/// Terminology spans found in a completed translation.
#[derive(Debug)]
pub struct RecordTranslationResponse {
    pub term_matches: Vec<CorpusTermMatch>,
}

/// Machine-readable error body.
#[derive(Debug)]
pub struct ErrorResponse {
    pub code: String,
    pub error: String,
}

/// A provider's full atomic snapshot.
#[derive(Debug)]
pub struct PublishProviderRequest {
    pub corpora: Vec<CorpusDefinition>,
    /// Required expiry for runtime data, 5 to 3600 seconds.
    pub ttl_seconds: u64,
}

/// Acknowledgement of a published provider snapshot.
#[derive(Debug)]
pub struct ProviderSnapshotResponse {
    pub provider_id: String,
    pub corpus_count: usize,
    pub ttl_seconds: u64,
}

/// Status of the VRCX runtime provider.
#[derive(Debug)]
pub struct VrcxStatusResponse {
    pub enabled: bool,
    pub vrcx_running: bool,
    pub vrchat_running: bool,
    pub connected: bool,
    pub database_path: String,
    pub world_name: String,
    pub player_count: usize,
    pub term_count: usize,
    pub age_ms: Option<u64>,
    pub last_error: String,
}

/// Default provider snapshot lifetime when a request omits it.
pub fn default_provider_ttl_seconds() -> (r: u64)
    ensures
        r == 60,
{
    60
}

/// Error code used when an error body omits one.
pub fn default_error_code() -> (r: String)
    ensures
        r@ == "unknown_error"@,
{
    owned("unknown_error")
}

} // verus!
