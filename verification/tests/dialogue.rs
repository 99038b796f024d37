use xr_corpus::dialogue::{BilingualTurn, DialogueHistory, TranscriptHistory};

fn turn(id: &str, source: &str) -> BilingualTurn {
    BilingualTurn {
        turn_id: if id.is_empty() { None } else { Some(id.to_owned()) },
        speaker_id: "speaker-01".into(),
        source_language: "en".into(),
        target_language: "zh".into(),
        source_text: source.into(),
        translated_text: format!("translated {source}"),
    }
}

#[test]
fn a_streaming_revision_replaces_its_logical_turn() {
    let mut history = DialogueHistory::new(2);
    history.record(turn("speech-1", "first window"));
    history.record(turn("speech-1", "revised window"));
    history.record(turn("speech-2", "next turn"));

    let relevant = history.relevant(&["en".into(), "zh".into()]);
    assert_eq!(relevant.len(), 2);
    assert_eq!(relevant[0].source_text, "revised window");
    assert_eq!(relevant[1].source_text, "next turn");
}

#[test]
fn independent_speak_turns_remain_bounded_and_ordered() {
    let mut history = DialogueHistory::new(2);
    history.record(turn("speak-1", "one"));
    history.record(turn("speak-2", "two"));
    history.record(turn("speak-3", "three"));

    let relevant = history.relevant(&["en".into(), "zh".into()]);
    assert_eq!(
        relevant
            .iter()
            .map(|turn| turn.source_text.as_str())
            .collect::<Vec<_>>(),
        ["two", "three"]
    );
}

#[test]
fn transcript_revisions_do_not_fill_recognition_evidence() {
    let mut history = TranscriptHistory::new(2);
    history.record(Some("speech-1".into()), "first window".into());
    history.record(Some("speech-1".into()), "revised window".into());
    history.record(Some("speech-2".into()), "next turn".into());
    assert_eq!(
        history.iter().collect::<Vec<_>>(),
        ["revised window", "next turn"]
    );
}

#[test]
fn identical_consecutive_turns_without_identifiers_are_recorded_once() {
    let mut history = DialogueHistory::new(3);
    history.record(turn("", "same"));
    history.record(turn("", "same"));
    assert_eq!(history.len(), 1);
    history.record(turn("", "other"));
    assert_eq!(history.len(), 2);
}

#[test]
fn zero_capacity_histories_record_nothing() {
    let mut dialogue = DialogueHistory::new(0);
    dialogue.record(turn("a", "one"));
    assert_eq!(dialogue.len(), 0);
    let mut transcripts = TranscriptHistory::new(0);
    transcripts.record(None, "one".into());
    assert_eq!(transcripts.len(), 0);
}

#[test]
fn relevant_turns_need_both_languages() {
    let mut history = DialogueHistory::new(3);
    history.record(turn("a", "one"));
    assert_eq!(history.relevant(&["en".into()]).len(), 0);
    assert_eq!(history.relevant(&["zh".into(), "en".into()]).len(), 1);
    history.clear();
    assert_eq!(history.len(), 0);
}

#[test]
fn repeated_transcript_text_is_kept_once() {
    let mut history = TranscriptHistory::new(3);
    history.record(None, "hello".into());
    history.record(None, "hello".into());
    history.record(None, "world".into());
    assert_eq!(history.iter().collect::<Vec<_>>(), ["hello", "world"]);
    assert_eq!(history.texts(), ["hello", "world"]);
}
