use xr_corpus::catalog::CorpusCatalog;
use xr_corpus::client::{close_succeeded, normalize_base_url, session_path};
use xr_corpus::config::CorpusConfig;
use xr_corpus::corpus::{CORPUS_SCHEMA, CorpusActivation, CorpusDefinition, CorpusTerm};
use xr_corpus::language::LANGUAGE_COUNT;
use xr_corpus::manager::PromptContextManager;
use xr_corpus::protocol::{
    ContextBudgets, PrepareAsrRequest, PrepareTranslationRequest, RecordTranslationRequest,
};
use xr_corpus::service::{
    CorpusSession, MAX_SNAPSHOTS_PER_SESSION, ServiceError, budgets, reaper_interval_millis,
    session_name, session_ttl_seconds,
};

fn term(zh: &str, en: &str) -> CorpusTerm {
    let mut row = vec![String::new(); LANGUAGE_COUNT];
    row[0] = zh.into();
    row[1] = en.into();
    CorpusTerm::from_ordered(row).unwrap()
}

fn session() -> CorpusSession {
    let catalog = CorpusCatalog::from_definitions(vec![CorpusDefinition {
        schema: CORPUS_SCHEMA.into(),
        id: "games.overwatch.heroes".into(),
        domain: "games".into(),
        subdomain: "overwatch".into(),
        title: "Overwatch Heroes".into(),
        priority: 70,
        activation: CorpusActivation::OnEvidence,
        triggers: vec![term("守望先锋", "Overwatch")],
        trigger_aliases: Vec::new(),
        activation_context: Vec::new(),
        terms: vec![term("天使", "Mercy")],
    }])
    .unwrap();
    let manager = PromptContextManager::new(CorpusConfig::default(), catalog).unwrap();
    CorpusSession::new(manager)
}

fn asr_request() -> PrepareAsrRequest {
    PrepareAsrRequest {
        source_language: "en".into(),
        target_language: "zh".into(),
        budgets: ContextBudgets { asr_tokens: 1_000, translation_tokens: 1_000 },
    }
}

fn translation_request(asr_context_id: u64, text: &str) -> PrepareTranslationRequest {
    PrepareTranslationRequest {
        asr_context_id,
        turn_id: None,
        speaker_id: String::new(),
        source_language: "en".into(),
        target_language: "zh".into(),
        recognized_text: text.into(),
        segments: vec![text.into()],
        budgets: ContextBudgets { asr_tokens: 1_000, translation_tokens: 1_000 },
    }
}

#[test]
fn context_identifiers_count_up_and_snapshots_stay_bounded() {
    let mut session = session();
    let mut ids = Vec::new();
    for _ in 0..(MAX_SNAPSHOTS_PER_SESSION + 3) {
        ids.push(session.prepare_asr(&asr_request()).unwrap().context_id);
    }
    assert_eq!(ids, (1..=15).collect::<Vec<u64>>());
    assert_eq!(session.snapshot_count(), MAX_SNAPSHOTS_PER_SESSION);
    assert!(session.context_snapshot(3).is_none());
    assert!(session.context_snapshot(4).is_some());
    assert!(session.context_snapshot(15).is_some());
}

#[test]
fn translation_needs_a_live_asr_snapshot() {
    let mut session = session();
    match session.prepare_translation(&translation_request(99, "hello")) {
        Err(ServiceError::ContextExpired(message)) => {
            assert_eq!(message, "ASR context snapshot has expired")
        },
        other => panic!("unexpected {other:?}"),
    }
    assert_eq!(session.snapshot_count(), 0);
}

#[test]
fn translation_context_selects_from_the_recognized_text() {
    let mut session = session();
    let asr = session.prepare_asr(&asr_request()).unwrap();
    let response = session
        .prepare_translation(&translation_request(asr.context_id, "I play Overwatch with Mercy"))
        .unwrap();
    assert_eq!(response.context_id, asr.context_id + 1);
    assert_eq!(response.corrected_text, "I play Overwatch with Mercy");
    assert_eq!(response.segments.len(), 1);
    let segment = &response.segments[0];
    assert_eq!(segment.corrected_text, "I play Overwatch with Mercy");
    assert!(segment.activation_matches.iter().any(|m| m.text == "Overwatch"));
    assert!(segment.context_data.recent_turns.is_empty());
    assert_eq!(session.manager().active_corpus_ids(), ["games.overwatch.heroes"]);

    let recorded = session
        .record_translation(&RecordTranslationRequest {
            context_id: response.context_id,
            turn_id: None,
            speaker_id: String::new(),
            source_language: "en".into(),
            target_language: "zh".into(),
            source_text: "I play Overwatch with Mercy".into(),
            translated_text: "我和天使一起玩守望先锋".into(),
        })
        .unwrap();
    assert!(recorded.term_matches.iter().any(|m| m.text == "天使"));
}

#[test]
fn recording_needs_a_live_translation_snapshot() {
    let mut session = session();
    let result = session.record_translation(&RecordTranslationRequest {
        context_id: 1,
        turn_id: None,
        speaker_id: String::new(),
        source_language: "en".into(),
        target_language: "zh".into(),
        source_text: "a".into(),
        translated_text: "b".into(),
    });
    match result {
        Err(ServiceError::ContextExpired(message)) => {
            assert_eq!(message, "translation context snapshot has expired")
        },
        other => panic!("unexpected {other:?}"),
    }
}

#[test]
fn budgets_keep_asr_first() {
    assert_eq!(budgets(ContextBudgets { asr_tokens: 3, translation_tokens: 9 }), (3, 9));
}

#[test]
fn client_rules() {
    assert_eq!(normalize_base_url("http://127.0.0.1:7766//").unwrap(), "http://127.0.0.1:7766");
    assert_eq!(normalize_base_url("http://x").unwrap(), "http://x");
    assert_eq!(normalize_base_url("///").unwrap_err(), "XR Corpus URL cannot be empty");
    assert_eq!(session_path("session-1", "/asr"), "/v1/sessions/session-1/asr");
    assert_eq!(session_path("session-2", ""), "/v1/sessions/session-2");
    assert!(close_succeeded(204));
    assert!(close_succeeded(404));
    assert!(!close_succeeded(500));
}

#[test]
fn session_names_and_lifetimes() {
    assert_eq!(session_name(7), "session-7");
    assert_eq!(session_name(1_234_567_890), "session-1234567890");
    assert_eq!(session_name(0), "session-0");
    assert_eq!(session_ttl_seconds(5), 30);
    assert_eq!(session_ttl_seconds(900), 900);
    assert_eq!(reaper_interval_millis(30), 15_000);
    assert_eq!(reaper_interval_millis(61), 30_500);
    assert_eq!(reaper_interval_millis(900), 60_000);
}
