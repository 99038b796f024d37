use xr_corpus::evidence::{compact_history_text, split_identifier_words};
use xr_corpus::fold::fold_for_match;
use xr_corpus::language::{language_index, normalized_language_code, task_languages};
use xr_corpus::prompt::{estimated_prompt_tokens, render_asr_prompt, within_prompt_budget};

#[test]
fn folding_drops_diacritics_and_case() {
    assert_eq!(fold_for_match("Café"), "cafe");
    assert_eq!(fold_for_match("ＭＥＲＣＹ"), "mercy");
    assert_eq!(fold_for_match("Łódź"), "łodz");
    assert_eq!(fold_for_match(""), "");
}

#[test]
fn identifier_words_are_split_at_case_boundaries() {
    assert_eq!(split_identifier_words("MercyFan"), "Mercy Fan");
    assert_eq!(split_identifier_words("HTTPServer"), "HTTP Server");
    assert_eq!(split_identifier_words("snake_case"), "snake case");
    assert_eq!(split_identifier_words("Ver2Beta"), "Ver2 Beta");
    assert_eq!(split_identifier_words("plain"), "plain");
}

#[test]
fn history_text_is_compacted_and_capped() {
    assert_eq!(compact_history_text("  hello \n  world\t"), "hello world");
    let long = "x".repeat(300);
    assert_eq!(compact_history_text(&long).chars().count(), 240);
    assert_eq!(compact_history_text("   "), "");
}

#[test]
fn prompt_token_estimate_weights_non_ascii() {
    assert_eq!(estimated_prompt_tokens(""), 0);
    assert_eq!(estimated_prompt_tokens("abc"), 1);
    assert_eq!(estimated_prompt_tokens("abcd"), 2);
    assert_eq!(estimated_prompt_tokens("天使"), 2);
    assert!(within_prompt_budget("abcd", 4, 2));
    assert!(!within_prompt_budget("abcd", 3, 2));
    assert!(!within_prompt_budget("abcd", 4, 1));
}

#[test]
fn asr_prompt_lists_vocabulary() {
    let words = vec!["Mercy".to_owned(), "Genji".to_owned()];
    assert_eq!(render_asr_prompt(&words), "Vocabulary: Mercy, Genji");
}

#[test]
fn task_languages_are_normalized_known_and_distinct() {
    assert_eq!(normalized_language_code(" ZH_hans "), "zh");
    assert_eq!(task_languages("auto", "zh,en"), ["zh", "en"]);
    assert_eq!(task_languages("EN-us", "zh,en, xx"), ["en", "zh"]);
    assert_eq!(language_index("en"), Some(1));
    assert_eq!(language_index("nl"), Some(15));
    assert_eq!(language_index("xx"), None);
}

fn correction(start: u32, end: u32, text: &str) -> xr_corpus::protocol::CorpusRecognitionCorrection {
    xr_corpus::protocol::CorpusRecognitionCorrection {
        start_byte: start,
        end_byte: end,
        original_text: text.into(),
        corrected_text: text.to_uppercase(),
        sources: Vec::new(),
    }
}

#[test]
fn corrections_keep_the_longest_first_and_never_overlap() {
    let kept = xr_corpus::correction::select_non_overlapping_corrections(vec![
        correction(6, 8, "gh"),
        correction(2, 4, "cd"),
        correction(0, 5, "abcde"),
        correction(4, 7, "efg"),
        correction(9, 10, "j"),
    ]);
    let spans: Vec<(u32, u32)> = kept.iter().map(|c| (c.start_byte, c.end_byte)).collect();
    assert_eq!(spans, [(0, 5), (6, 8), (9, 10)]);
}

#[test]
fn every_language_code_names_its_own_column() {
    let order = xr_corpus::language::corpus_language_order();
    assert_eq!(order.len(), 16);
    for (i, code) in order.iter().enumerate() {
        assert_eq!(language_index(code), Some(i));
        assert_eq!(normalized_language_code(code), *code);
    }
    assert_eq!(language_index(" ZH-Hant "), Some(0));
    assert_eq!(language_index("pt_BR"), Some(3));
}

fn selected_row(row: &str, value: &str) -> xr_corpus::rows::SelectedPromptTerm {
    xr_corpus::rows::SelectedPromptTerm {
        row: row.to_owned(),
        values: vec![("en".to_owned(), value.to_owned())],
        match_values: vec![("en".to_owned(), value.to_owned())],
        sources: vec![xr_corpus::protocol::CorpusTermSource {
            corpus_id: "game.test".to_owned(),
            domain: "game".to_owned(),
            subdomain: "test".to_owned(),
            title: "Test".to_owned(),
        }],
    }
}

#[test]
fn selected_term_matches_never_overlap_and_hold_their_text() {
    let text = "Mercy Genji and Mercy";
    let rows = vec![
        selected_row("a", "Mercy Genji"),
        selected_row("b", "Genji"),
        selected_row("c", "Mercy"),
    ];
    let found = xr_corpus::matching::match_selected_terms(text, &rows, Some("en"));
    for (i, m) in found.iter().enumerate() {
        assert_eq!(&text[m.start_byte as usize..m.end_byte as usize], m.text);
        for other in &found[i + 1..] {
            assert!(m.end_byte <= other.start_byte || other.end_byte <= m.start_byte);
        }
    }
    let spans: Vec<(u32, u32, &str)> =
        found.iter().map(|m| (m.start_byte, m.end_byte, m.text.as_str())).collect();
    assert_eq!(spans, vec![(0, 11, "Mercy Genji"), (16, 21, "Mercy")]);
}
