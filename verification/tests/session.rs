use xr_corpus::catalog::CorpusCatalog;
use xr_corpus::config::CorpusConfig;
use xr_corpus::corpus::{CORPUS_SCHEMA, CorpusActivation, CorpusDefinition, CorpusTerm};
use xr_corpus::language::{LANGUAGE_COUNT, language_index};
use xr_corpus::manager::PromptContextManager;
use xr_corpus::prompt::estimated_prompt_tokens;
use xr_corpus::snapshot::PromptContextSnapshot;

fn config() -> CorpusConfig {
    CorpusConfig {
        asr_max_chars: 520,
        translation_max_chars: 700,
        max_entries: 3,
        asr_history_entries: 1,
        translation_history_entries: 3,
        ..CorpusConfig::default()
    }
}

fn corpus(
    id: &str,
    priority: i32,
    activation: CorpusActivation,
    triggers: &[(&str, &str)],
    terms: &[(&str, &str)],
) -> CorpusDefinition {
    let mut parts = id.split('.');
    CorpusDefinition {
        schema: CORPUS_SCHEMA.into(),
        id: id.into(),
        domain: parts.next().unwrap().into(),
        subdomain: parts.next().unwrap().into(),
        title: id.into(),
        priority,
        activation,
        triggers: triggers
            .iter()
            .map(|(zh, en)| bilingual_term(zh, en))
            .collect(),
        trigger_aliases: Vec::new(),
        activation_context: Vec::new(),
        terms: terms
            .iter()
            .map(|(zh, en)| bilingual_term(zh, en))
            .collect(),
    }
}

fn bilingual_term(zh: &str, en: &str) -> CorpusTerm {
    term_from_values(&[("zh", zh), ("en", en)])
}

fn term_from_values(values: &[(&str, &str)]) -> CorpusTerm {
    let mut row = vec![String::new(); LANGUAGE_COUNT];
    for (language, value) in values {
        row[language_index(language).unwrap()] = (*value).into();
    }
    CorpusTerm::from_ordered(row).unwrap()
}

fn catalog() -> CorpusCatalog {
    CorpusCatalog::from_definitions(vec![
        corpus(
            "virtual-worlds.vrchat.platform",
            1,
            CorpusActivation::OnEvidence,
            &[("虚拟形象", "avatar"), ("VRChat", "VRChat")],
            &[("开放声音控制", "Open Sound Control")],
        ),
        corpus(
            "audio-technology.speech-recognition.models",
            2,
            CorpusActivation::OnEvidence,
            &[("麦克风", "microphone")],
            &[("ERes2NetV2", "ERes2NetV2")],
        ),
    ])
    .unwrap()
}

fn overwatch(triggers: Vec<CorpusTerm>, terms: Vec<CorpusTerm>) -> CorpusDefinition {
    CorpusDefinition {
        schema: CORPUS_SCHEMA.into(),
        id: "games.overwatch.heroes".into(),
        domain: "games".into(),
        subdomain: "overwatch".into(),
        title: "Overwatch Heroes".into(),
        priority: 70,
        activation: CorpusActivation::OnEvidence,
        triggers,
        trigger_aliases: Vec::new(),
        activation_context: Vec::new(),
        terms,
    }
}

#[test]
fn one_selection_builds_asr_and_translation_views() {
    let mut context = PromptContextManager::new(config(), catalog()).unwrap();
    context.record_transcript("My VRChat avatar uses this microphone");
    context.record_translation("en", "zh", "Hello Mercy", "你好，天使");
    let snapshot = context
        .select("auto", "zh,en", &[], (1_000, 1_000))
        .unwrap();
    let asr = snapshot.asr_prompt().unwrap();
    let translation = snapshot.translation_prompt().unwrap();
    assert!(asr.starts_with("Vocabulary: "));
    assert!(asr.contains("ERes2NetV2"));
    assert!(!asr.contains("Hello Mercy"));
    assert!(
        snapshot
            .asr_echo_guard()
            .iter()
            .any(|value| value == "Hello Mercy")
    );
    assert!(translation.starts_with("# Translation Context"));
    assert!(translation.contains("开放声音控制,Open Sound Control"));
    assert!(translation.contains("zh: 你好，天使"));
    assert!(asr.chars().count() <= 520);
    assert!(translation.chars().count() <= 700);
}

#[test]
fn disabled_context_returns_an_empty_snapshot() {
    let mut context = PromptContextManager::new(
        CorpusConfig {
            enabled: false,
            ..CorpusConfig::default()
        },
        catalog(),
    )
    .unwrap();
    assert_eq!(
        context
            .select("auto", "zh,en", &[], (1_000, 1_000))
            .unwrap(),
        PromptContextSnapshot::default()
    );
}

#[test]
fn history_is_bounded_and_only_successful_pairs_reach_prompts() {
    let mut context = PromptContextManager::new(
        CorpusConfig {
            max_entries: 2,
            asr_history_entries: 1,
            translation_history_entries: 2,
            ..config()
        },
        catalog(),
    )
    .unwrap();
    context.record_transcript("untranslated evidence");
    context.record_translation("en", "zh", "old", "旧");
    context.record_translation("en", "zh", "middle", "中");
    context.record_translation("en", "zh", "new", "新");
    let snapshot = context
        .select("auto", "zh,en", &[], (1_000, 1_000))
        .unwrap();
    assert!(snapshot.asr_prompt().is_none());
    let translation = snapshot.translation_prompt().unwrap();
    assert!(snapshot.asr_echo_guard().iter().any(|value| value == "new"));
    assert!(snapshot.asr_echo_guard().iter().any(|value| value == "新"));
    assert!(
        !snapshot
            .asr_echo_guard()
            .iter()
            .any(|value| value == "middle")
    );
    assert!(!translation.contains("en: old"));
    assert!(translation.contains("en: middle"));
    assert!(translation.contains("en: new"));
}

#[test]
fn prior_topic_activates_bilingual_terms_for_the_next_translation() {
    let catalog = CorpusCatalog::from_definitions(vec![corpus(
        "games.overwatch.heroes",
        70,
        CorpusActivation::OnEvidence,
        &[("守望先锋", "Overwatch"), ("天使", "Mercy")],
        &[("天使", "Mercy")],
    )])
    .unwrap();
    let mut context = PromptContextManager::new(config(), catalog).unwrap();

    let mercy_turn = context
        .select("auto", "zh,en", &["Do you play Overwatch?"], (1_000, 1_000))
        .unwrap();
    assert!(
        mercy_turn
            .translation_prompt()
            .unwrap()
            .contains("天使,Mercy")
    );
    let title_matches = mercy_turn.translation_term_matches(
        "Do you play Overwatch?",
        "你玩《守望先锋》吗？",
        "zh",
    );
    assert_eq!(title_matches[0].text, "守望先锋");
    assert_eq!(
        title_matches[0].sources[0].corpus_id,
        "games.overwatch.heroes"
    );
    let matches = mercy_turn.translation_term_matches("I love Mercy.", "我喜欢天使。", "zh");
    assert_eq!(matches.len(), 1);
    assert_eq!(matches[0].text, "天使");
    assert_eq!(matches[0].sources[0].corpus_id, "games.overwatch.heroes");
    assert_eq!(matches[0].sources[0].domain, "games");
    assert_eq!(matches[0].sources[0].subdomain, "overwatch");

    context.record_transcript("Do you play Overwatch?");
    context.record_translation("en", "zh", "I love Mercy.", "我喜欢天使。");
    let following_turn = context
        .select("auto", "zh,en", &[], (1_000, 1_000))
        .unwrap();
    let asr = following_turn.asr_prompt().unwrap();
    assert!(!asr.contains("I love Mercy."));
    assert!(!asr.contains("我喜欢天使。"));
    assert!(
        following_turn
            .asr_echo_guard()
            .iter()
            .any(|value| value == "I love Mercy.")
    );
    assert!(
        following_turn
            .asr_echo_guard()
            .iter()
            .any(|value| value == "我喜欢天使。")
    );
    assert!(following_turn.activation_matches("Mercy").is_empty());
}

#[test]
fn current_source_term_survives_general_prompt_budget_truncation() {
    let mut terms = (0..40)
        .map(|index| {
            term_from_values(&[
                ("zh", &format!("很长的占位术语{index:02}")),
                ("en", &format!("Long Placeholder Term {index:02}")),
            ])
        })
        .collect::<Vec<_>>();
    terms.push(term_from_values(&[("zh", "莱因哈特"), ("en", "Reinhardt")]));
    let definition = overwatch(
        vec![term_from_values(&[("zh", "守望先锋"), ("en", "Overwatch")])],
        terms,
    );
    let mut context = PromptContextManager::new(
        config(),
        CorpusCatalog::from_definitions(vec![definition]).unwrap(),
    )
    .unwrap();
    let snapshot = context
        .select("auto", "zh,en", &["Overwatch"], (1_000, 256))
        .unwrap();

    let prompt = snapshot
        .translation_prompt_for("I played Reinhardt.")
        .unwrap();
    assert!(prompt.contains("莱因哈特,Reinhardt"));
    let matches = snapshot.translation_term_matches("I played Reinhardt.", "我玩莱因哈特。", "zh");
    assert_eq!(matches.len(), 1);
    assert_eq!(matches[0].text, "莱因哈特");
    assert!(
        snapshot
            .translation_term_matches("Long Placeholder Term 39", "很长的占位术语39", "zh",)
            .is_empty()
    );
}

#[test]
fn bidirectional_direction_change_preserves_active_topic() {
    let corpus = overwatch(
        vec![term_from_values(&[("zh", "zh-game"), ("en", "Overwatch")])],
        vec![term_from_values(&[("zh", "zh-angel"), ("en", "Mercy")])],
    );
    let mut context = PromptContextManager::new(
        config(),
        CorpusCatalog::from_definitions(vec![corpus]).unwrap(),
    )
    .unwrap();

    context
        .select("en", "zh", &["Overwatch"], (1_000, 1_000))
        .unwrap();
    assert_eq!(context.active_corpus_ids(), vec!["games.overwatch.heroes"]);

    let reversed = context
        .select("zh", "en", &["zh-angel"], (1_000, 1_000))
        .unwrap();
    assert_eq!(context.active_corpus_ids(), vec!["games.overwatch.heroes"]);
    let prompt = reversed.translation_prompt_for("zh-angel").unwrap();
    assert!(prompt.contains("## Language Order\n\nzh,en"));
    assert!(prompt.contains("zh-angel,Mercy"));
}

#[test]
fn route_language_change_discards_old_language_context_and_columns() {
    let corpus = overwatch(
        vec![term_from_values(&[
            ("zh", "zh-game"),
            ("en", "Overwatch"),
            ("ja", "ja-game"),
        ])],
        vec![term_from_values(&[
            ("zh", "zh-only-hero"),
            ("en", "Mercy"),
            ("ja", "ja-only-hero"),
        ])],
    );
    let mut context = PromptContextManager::new(
        config(),
        CorpusCatalog::from_definitions(vec![corpus]).unwrap(),
    )
    .unwrap();

    let zh_en = context
        .select("auto", "zh,en", &["Overwatch"], (1_000, 1_000))
        .unwrap();
    assert!(zh_en.asr_prompt().unwrap().contains("zh-only-hero"));
    assert!(
        zh_en
            .translation_prompt_for("Mercy")
            .unwrap()
            .contains("zh-only-hero,Mercy")
    );
    context.record_transcript("Overwatch Mercy");
    context.record_translation("en", "zh", "Mercy", "zh-only-hero");

    let ja_en = context
        .select("ja", "en", &["Overwatch"], (1_000, 1_000))
        .unwrap();
    let asr = ja_en.asr_prompt().unwrap();
    assert!(asr.contains("ja-only-hero"));
    assert!(asr.contains("Mercy"));
    assert!(!asr.contains("zh-only-hero"));

    let prompt = ja_en.translation_prompt_for("Mercy").unwrap();
    assert!(prompt.contains("## Language Order\n\nja,en"));
    assert!(prompt.contains("ja-only-hero,Mercy"));
    assert!(!prompt.contains("zh-only-hero"));
    assert!(!prompt.contains("zh:"));
}

#[test]
fn bidirectional_route_uses_only_the_configured_language_pair() {
    let corpus = overwatch(
        vec![term_from_values(&[
            ("zh", "zh-game"),
            ("en", "Overwatch"),
            ("ja", "ja-game"),
        ])],
        vec![term_from_values(&[
            ("zh", "zh-only-hero"),
            ("en", "Mercy"),
            ("ja", "ja-only-hero"),
        ])],
    );
    let mut context = PromptContextManager::new(
        config(),
        CorpusCatalog::from_definitions(vec![corpus]).unwrap(),
    )
    .unwrap();

    let snapshot = context
        .select("auto", "ja,en", &["Overwatch"], (1_000, 1_000))
        .unwrap();
    let prompt = snapshot.translation_prompt_for("Mercy").unwrap();

    assert!(prompt.contains("## Language Order\n\nja,en"));
    assert!(prompt.contains("ja-only-hero,Mercy"));
    assert!(!prompt.contains("zh-only-hero"));
    assert!(!prompt.contains("zh,en"));
    assert!(!prompt.contains("zh:"));
}

#[test]
fn a_new_explicit_domain_replaces_stale_specialist_context() {
    let catalog = CorpusCatalog::from_definitions(vec![
        corpus(
            "games.overwatch.heroes",
            70,
            CorpusActivation::OnEvidence,
            &[("守望先锋", "Overwatch")],
            &[("天使", "Mercy")],
        ),
        corpus(
            "education-and-science.research.common",
            60,
            CorpusActivation::OnEvidence,
            &[("论文", "paper")],
            &[("同行评审", "peer review")],
        ),
    ])
    .unwrap();
    let mut context = PromptContextManager::new(config(), catalog).unwrap();
    context.record_transcript("Do you play Overwatch?");

    let snapshot = context
        .select("auto", "zh,en", &["论文写没？"], (1_000, 1_000))
        .unwrap();
    let prompt = snapshot.translation_prompt().unwrap();
    assert!(prompt.contains("论文,paper"));
    assert!(prompt.contains("同行评审,peer review"));
    assert!(!prompt.contains("天使,Mercy"));
    let matches = snapshot.activation_matches("论文写没？");
    assert_eq!(matches[0].text, "论文");
    assert_eq!(
        matches[0].sources[0].corpus_id,
        "education-and-science.research.common"
    );

    context.record_transcript("论文写没？");
    let follow_up = context
        .select("auto", "zh,en", &["写完了吗？"], (1_000, 1_000))
        .unwrap();
    let follow_up_prompt = follow_up.translation_prompt().unwrap();
    assert!(follow_up_prompt.contains("同行评审,peer review"));
    assert!(!follow_up_prompt.contains("天使,Mercy"));
    assert!(follow_up.activation_matches("写完了吗？").is_empty());
}

#[test]
fn always_active_runtime_terms_activate_matching_static_corpora() {
    let mut catalog = CorpusCatalog::from_definitions(vec![corpus(
        "games.overwatch.heroes",
        70,
        CorpusActivation::OnEvidence,
        &[("天使", "Mercy")],
        &[("安娜", "Ana"), ("源氏", "Genji"), ("天使", "Mercy")],
    )])
    .unwrap();
    let runtime = corpus(
        "virtual-worlds.vrchat.runtime-room",
        1_000,
        CorpusActivation::Always,
        &[("VRChat", "VRChat")],
        &[("MercyFan", "MercyFan")],
    );
    catalog
        .dynamic_source_mut()
        .replace_snapshot("vrcx", vec![runtime], None)
        .unwrap();

    let mut context = PromptContextManager::new(config(), catalog).unwrap();
    let snapshot = context
        .select("auto", "zh,en", &[], (1_000, 1_000))
        .unwrap();
    let translation = snapshot.translation_prompt().unwrap();
    assert!(translation.contains("MercyFan,MercyFan"));
    assert!(translation.contains("安娜,Ana"));
    assert!(translation.contains("天使,Mercy"));
}

#[test]
fn default_platform_terms_do_not_depend_on_runtime_integrations() {
    let catalog = CorpusCatalog::from_definitions(vec![corpus(
        "games.multiplayer.platforms",
        10,
        CorpusActivation::Always,
        &[],
        &[("VRChat", "VRChat")],
    )])
    .unwrap();
    let mut context = PromptContextManager::new(config(), catalog).unwrap();

    let snapshot = context
        .select("auto", "zh,en", &[], (1_000, 1_000))
        .unwrap();

    let asr = snapshot.asr_prompt().unwrap();
    assert!(asr.contains("VRChat"));
}

#[test]
fn vrchat_runtime_game_mode_selects_daily_chat_without_specialist_topics() {
    let daily = corpus(
        "virtual-worlds.vrchat.community-language",
        65,
        CorpusActivation::OnEvidence,
        &[("VRChat", "VRChat")],
        &[("男娘", "femboy"), ("摸摸", "headpat")],
    );
    let mut avatar = corpus(
        "virtual-worlds.vrchat.avatar-osc",
        55,
        CorpusActivation::OnEvidence,
        &[("Avatar", "Avatar"), ("OSC", "OSC")],
        &[("面部追踪", "face tracking")],
    );
    avatar.activation_context = vec![bilingual_term("VRChat", "VRChat")];
    let mut catalog = CorpusCatalog::from_definitions(vec![daily, avatar]).unwrap();
    catalog
        .dynamic_source_mut()
        .replace_snapshot(
            "vrcx",
            vec![corpus(
                "virtual-worlds.vrchat.runtime-game-mode",
                1_100,
                CorpusActivation::Always,
                &[],
                &[("VRChat", "VRChat")],
            )],
            None,
        )
        .unwrap();

    let mut context = PromptContextManager::new(config(), catalog).unwrap();
    let snapshot = context
        .select("auto", "zh,en", &["hi everyone"], (1_000, 1_000))
        .unwrap();
    let prompt = snapshot.translation_prompt().unwrap();
    assert!(prompt.contains("男娘,femboy"));
    assert!(prompt.contains("摸摸,headpat"));
    assert!(!prompt.contains("面部追踪,face tracking"));
    assert!(snapshot.activation_matches("hi everyone").is_empty());
}

#[test]
fn specialist_context_decays_back_to_vrchat_daily_chat() {
    let daily = corpus(
        "virtual-worlds.vrchat.community-language",
        65,
        CorpusActivation::OnEvidence,
        &[("VRChat", "VRChat")],
        &[("男娘", "femboy")],
    );
    let mut avatar = corpus(
        "virtual-worlds.vrchat.avatar-osc",
        55,
        CorpusActivation::OnEvidence,
        &[("Avatar", "Avatar")],
        &[("面部追踪", "face tracking")],
    );
    avatar.activation_context = vec![bilingual_term("VRChat", "VRChat")];
    let mut catalog = CorpusCatalog::from_definitions(vec![daily, avatar]).unwrap();
    catalog
        .dynamic_source_mut()
        .replace_snapshot(
            "vrcx",
            vec![corpus(
                "virtual-worlds.vrchat.runtime-game-mode",
                1_100,
                CorpusActivation::Always,
                &[],
                &[("VRChat", "VRChat")],
            )],
            None,
        )
        .unwrap();

    let mut context = PromptContextManager::new(config(), catalog).unwrap();
    let avatar_turn = context
        .select(
            "auto",
            "zh,en",
            &["My Avatar face tracking broke"],
            (1_000, 1_000),
        )
        .unwrap();
    assert!(
        avatar_turn
            .translation_prompt()
            .unwrap()
            .contains("面部追踪,face tracking")
    );

    for text in ["hello", "what are you doing", "nice to meet you"] {
        context.record_transcript(text);
        context.record_translation("en", "zh", text, "你好");
        let _ = context
            .select("auto", "zh,en", &[text], (1_000, 1_000))
            .unwrap();
    }

    let follow_up = context
        .select("auto", "zh,en", &["just chatting"], (1_000, 1_000))
        .unwrap();
    let prompt = follow_up.translation_prompt().unwrap();
    assert!(prompt.contains("男娘,femboy"));
    assert!(!prompt.contains("面部追踪,face tracking"));
}

#[test]
fn active_corpus_term_match_refreshes_topic_decay_without_reactivating_it() {
    let catalog = CorpusCatalog::from_definitions(vec![corpus(
        "games.overwatch.heroes",
        70,
        CorpusActivation::OnEvidence,
        &[("守望先锋", "Overwatch")],
        &[("天使", "Mercy")],
    )])
    .unwrap();
    let mut context = PromptContextManager::new(config(), catalog).unwrap();

    let activated = context
        .select("auto", "zh,en", &["Overwatch"], (1_000, 1_000))
        .unwrap();
    assert!(
        activated
            .translation_prompt()
            .unwrap()
            .contains("天使,Mercy")
    );

    for text in ["hello", "how are you"] {
        let _ = context
            .select("auto", "zh,en", &[text], (1_000, 1_000))
            .unwrap();
    }

    let mercy_turn = context
        .select("auto", "zh,en", &["Mercy"], (1_000, 1_000))
        .unwrap();
    assert!(
        mercy_turn
            .translation_prompt()
            .unwrap()
            .contains("天使,Mercy")
    );
    assert!(mercy_turn.activation_matches("Mercy").is_empty());

    for text in ["nice", "thanks"] {
        let _ = context
            .select("auto", "zh,en", &[text], (1_000, 1_000))
            .unwrap();
    }
    let still_active = context
        .select("auto", "zh,en", &[], (1_000, 1_000))
        .unwrap();
    assert!(
        still_active
            .translation_prompt()
            .unwrap()
            .contains("天使,Mercy")
    );
}

#[test]
fn streaming_revisions_advance_topic_decay_only_once_per_turn() {
    let catalog = CorpusCatalog::from_definitions(vec![corpus(
        "games.overwatch.heroes",
        70,
        CorpusActivation::OnEvidence,
        &[("Overwatch", "Overwatch")],
        &[("Mercy-zh", "Mercy")],
    )])
    .unwrap();
    let mut context = PromptContextManager::new(config(), catalog).unwrap();

    context
        .select_observation("auto", "zh,en", &["Overwatch"], (1_000, 1_000), true)
        .unwrap();
    context
        .select_observation("auto", "zh,en", &["hello"], (1_000, 1_000), true)
        .unwrap();

    for revision in ["hello there", "hello there friend", "hello there friend!"] {
        context
            .select_observation("auto", "zh,en", &[revision], (1_000, 1_000), false)
            .unwrap();
    }
    assert_eq!(context.active_corpus_ids(), vec!["games.overwatch.heroes"]);

    context
        .select_observation("auto", "zh,en", &["Mercy"], (1_000, 1_000), false)
        .unwrap();
    for text in ["one", "two"] {
        context
            .select_observation("auto", "zh,en", &[text], (1_000, 1_000), true)
            .unwrap();
    }
    assert_eq!(context.active_corpus_ids(), vec!["games.overwatch.heroes"]);
    context
        .select_observation("auto", "zh,en", &["three"], (1_000, 1_000), true)
        .unwrap();
    assert!(context.active_corpus_ids().is_empty());
}

#[test]
fn prompt_selection_respects_the_model_token_budget() {
    let mut context = PromptContextManager::new(config(), catalog()).unwrap();
    context.record_transcript("VRChat avatar microphone");
    context.record_translation(
        "en",
        "zh",
        "A fairly long history turn",
        "一段较长的历史内容",
    );

    let snapshot = context.select("auto", "zh,en", &[], (48, 64)).unwrap();
    if let Some(prompt) = snapshot.asr_prompt() {
        assert!(estimated_prompt_tokens(&prompt) <= 48);
    }
    if let Some(prompt) = snapshot.translation_prompt() {
        assert!(estimated_prompt_tokens(&prompt) <= 64);
    }
}

#[test]
fn trigger_alias_resolves_to_authoritative_term_and_only_target_is_highlighted() {
    let catalog = CorpusCatalog::from_definitions(vec![corpus(
        "games.overwatch.heroes",
        70,
        CorpusActivation::OnEvidence,
        &[("Mercy", "Mercy")],
        &[
            ("\u{5929}\u{4f7f}", "Mercy"),
            ("\u{5362}\u{897f}\u{5965}", "Lúcio"),
        ],
    )])
    .unwrap();
    let mut context = PromptContextManager::new(config(), catalog).unwrap();

    let snapshot = context
        .select("auto", "zh,en", &["Do you play Mercy?"], (1_000, 1_000))
        .unwrap();
    let prompt = snapshot.translation_prompt().unwrap();
    assert!(prompt.contains("\u{5929}\u{4f7f},Mercy"));
    assert!(!prompt.lines().any(|line| line == "Mercy,Mercy"));
    let segment_prompt = snapshot.translation_prompt_for("I love Mercy").unwrap();
    assert!(segment_prompt.contains("\u{5929}\u{4f7f},Mercy"));
    assert!(!segment_prompt.contains("\u{5362}\u{897f}\u{5965},Lúcio"));
    assert!(
        snapshot
            .translation_term_matches("I love Mercy", "Mercy", "zh")
            .is_empty()
    );
    assert_eq!(
        snapshot
            .translation_term_matches("I love Mercy", "\u{5929}\u{4f7f}", "zh")
            .len(),
        1
    );
    let (retry_prompt, missing) = snapshot
        .terminology_retry_prompt(
            "I love Mercy",
            "\u{6211}\u{559c}\u{6b22}\u{6885}\u{897f}",
            "en",
            "zh",
        )
        .unwrap();
    assert_eq!(missing, 1);
    assert!(retry_prompt.contains("\u{5929}\u{4f7f},Mercy"));
    assert_eq!(
        snapshot.missing_translation_term_count(
            "I love Mercy",
            "\u{6211}\u{559c}\u{6b22}\u{5929}\u{4f7f}",
            "en",
            "zh",
        ),
        0
    );
}

#[test]
fn synonym_trigger_activates_corpus_without_becoming_prompt_terminology() {
    let mut definition = corpus(
        "technology.software-and-ai.frontier-models",
        60,
        CorpusActivation::OnEvidence,
        &[("人工智能", "artificial intelligence")],
        &[("开放人工智能", "OpenAI")],
    );
    definition.trigger_aliases = vec![bilingual_term("生成式人工智能", "generative AI")];
    let catalog = CorpusCatalog::from_definitions(vec![definition]).unwrap();
    let mut context = PromptContextManager::new(config(), catalog).unwrap();

    let snapshot = context
        .select(
            "auto",
            "zh,en",
            &["A generative AI product"],
            (1_000, 1_000),
        )
        .unwrap();

    assert_eq!(snapshot.activation_matches("generative AI").len(), 1);
    let prompt = snapshot.translation_prompt().unwrap();
    assert!(prompt.contains("开放人工智能,OpenAI"));
    assert!(!prompt.contains("生成式人工智能,generative AI"));
}

#[test]
fn activation_context_requires_country_and_topic_evidence() {
    let mut cuisine = corpus(
        "geography-and-culture.japan.cuisine",
        50,
        CorpusActivation::OnEvidence,
        &[("日本", "Japan")],
        &[("大阪烧", "okonomiyaki")],
    );
    cuisine.trigger_aliases = vec![bilingual_term("日本的", "Japanese")];
    cuisine.activation_context = vec![bilingual_term("美食", "food")];
    let catalog = CorpusCatalog::from_definitions(vec![cuisine]).unwrap();

    let mut country_only = PromptContextManager::new(config(), catalog.clone()).unwrap();
    assert!(
        country_only
            .select("auto", "zh,en", &["I visited Japan"], (1_000, 1_000))
            .unwrap()
            .translation_prompt()
            .is_none()
    );

    let mut topic_only = PromptContextManager::new(config(), catalog.clone()).unwrap();
    assert!(
        topic_only
            .select("auto", "zh,en", &["I like food"], (1_000, 1_000))
            .unwrap()
            .translation_prompt()
            .is_none()
    );

    let mut combined = PromptContextManager::new(config(), catalog).unwrap();
    let snapshot = combined
        .select(
            "auto",
            "zh,en",
            &["Tell me about Japanese food"],
            (1_000, 1_000),
        )
        .unwrap();
    assert!(
        snapshot
            .translation_prompt()
            .unwrap()
            .contains("大阪烧,okonomiyaki")
    );
}

#[test]
fn country_and_topic_from_different_turns_do_not_form_a_new_activation() {
    let mut cuisine = corpus(
        "geography-and-culture.japan.cuisine",
        50,
        CorpusActivation::OnEvidence,
        &[("Japan", "Japan")],
        &[("okonomiyaki", "okonomiyaki")],
    );
    cuisine.activation_context = vec![bilingual_term("food", "food")];
    let catalog = CorpusCatalog::from_definitions(vec![cuisine]).unwrap();
    let mut context = PromptContextManager::new(config(), catalog).unwrap();

    context.record_transcript("The food was good yesterday");
    let country_only = context
        .select("auto", "zh,en", &["Japan"], (1_000, 1_000))
        .unwrap();

    assert!(country_only.translation_prompt().is_none());
    assert!(country_only.activation_matches("Japan").is_empty());
}

#[test]
fn activation_is_a_state_transition_and_matching_ignores_diacritics() {
    let catalog = CorpusCatalog::from_definitions(vec![corpus(
        "games.overwatch.heroes",
        70,
        CorpusActivation::OnEvidence,
        &[("L\u{00fa}cio", "L\u{00fa}cio")],
        &[("\u{5362}\u{897f}\u{5965}", "L\u{00fa}cio")],
    )])
    .unwrap();
    let mut context = PromptContextManager::new(config(), catalog).unwrap();

    let first = context
        .select("auto", "zh,en", &["I play Lucio"], (1_000, 1_000))
        .unwrap();
    let matches = first.activation_matches("I play Lucio");
    assert_eq!(matches.len(), 1);
    assert_eq!(matches[0].text, "Lucio");

    let repeated = context
        .select("auto", "zh,en", &["Lucio again"], (1_000, 1_000))
        .unwrap();
    assert!(repeated.activation_matches("Lucio again").is_empty());
    let context_matches = repeated.recognition_context_matches("Lucio again");
    assert_eq!(context_matches.len(), 1);
    assert_eq!(context_matches[0].text, "Lucio");
}
