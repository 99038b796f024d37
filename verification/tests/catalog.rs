use xr_corpus::catalog::{CorpusCatalog, CorpusSource, DynamicCorpusSource, StaticCorpusSource};
use xr_corpus::corpus::{CORPUS_SCHEMA, CorpusActivation, CorpusDefinition, CorpusTerm};
use xr_corpus::graph::GraphProjection;
use xr_corpus::language::LANGUAGE_COUNT;

fn term(en: &str) -> CorpusTerm {
    let mut row = vec![String::new(); LANGUAGE_COUNT];
    row[1] = en.into();
    CorpusTerm::from_ordered(row).unwrap()
}

fn corpus(id: &str, domain: &str, activation: CorpusActivation, terms: &[&str]) -> CorpusDefinition {
    CorpusDefinition {
        schema: CORPUS_SCHEMA.into(),
        id: id.into(),
        domain: domain.into(),
        subdomain: "general".into(),
        title: id.into(),
        priority: 10,
        activation,
        triggers: Vec::new(),
        trigger_aliases: Vec::new(),
        activation_context: Vec::new(),
        terms: terms.iter().map(|t| term(t)).collect(),
    }
}

fn ids(corpora: &[CorpusDefinition]) -> Vec<&str> {
    corpora.iter().map(|c| c.id.as_str()).collect()
}

#[test]
fn provider_snapshots_expire_with_their_ttl() {
    let mut dynamic = DynamicCorpusSource::new();
    dynamic
        .replace_snapshot_at(
            "room",
            vec![corpus("runtime.room", "virtual-worlds", CorpusActivation::Always, &["Bob"])],
            Some(1_000),
            100,
        )
        .unwrap();
    assert_eq!(ids(&dynamic.snapshot_at(500)), ["runtime.room"]);
    assert_eq!(ids(&dynamic.snapshot_at(1_099)), ["runtime.room"]);
    assert!(dynamic.snapshot_at(1_100).is_empty());
    assert!(dynamic.snapshot_at(5_000).is_empty());
    // The expired snapshot was dropped from the registry by those reads.
    assert!(dynamic.snapshot_at(500).is_empty());
}

#[test]
fn provider_replacement_is_atomic_and_removal_drops_it() {
    let mut dynamic = DynamicCorpusSource::new();
    dynamic
        .replace_snapshot_at(
            "room",
            vec![
                corpus("runtime.a", "virtual-worlds", CorpusActivation::Always, &["A"]),
                corpus("runtime.b", "virtual-worlds", CorpusActivation::Always, &["B"]),
            ],
            None,
            0,
        )
        .unwrap();
    dynamic
        .replace_snapshot_at(
            "other",
            vec![corpus("runtime.c", "virtual-worlds", CorpusActivation::Always, &["C"])],
            None,
            0,
        )
        .unwrap();
    dynamic
        .replace_snapshot_at(
            "room",
            vec![corpus("runtime.d", "virtual-worlds", CorpusActivation::Always, &["D"])],
            None,
            0,
        )
        .unwrap();
    assert_eq!(ids(&dynamic.snapshot_at(10)), ["runtime.c", "runtime.d"]);
    dynamic.remove_provider("room").unwrap();
    assert_eq!(ids(&dynamic.snapshot_at(10)), ["runtime.c"]);
    dynamic.remove_provider("unknown").unwrap();
    assert_eq!(ids(&dynamic.snapshot_at(10)), ["runtime.c"]);
}

#[test]
fn invalid_provider_snapshots_change_nothing() {
    let mut dynamic = DynamicCorpusSource::new();
    let good = corpus("runtime.a", "virtual-worlds", CorpusActivation::Always, &["A"]);
    assert!(dynamic.replace_snapshot_at("Bad Provider", vec![good.clone()], None, 0).is_err());
    let duplicate = vec![good.clone(), good.clone()];
    assert!(dynamic.replace_snapshot_at("room", duplicate, None, 0).is_err());
    let mut invalid = good.clone();
    invalid.terms.clear();
    assert!(dynamic.replace_snapshot_at("room", vec![invalid], None, 0).is_err());
    assert!(dynamic.snapshot_at(0).is_empty());
    assert_eq!(dynamic.source_id(), "runtime-dynamic");
}

#[test]
fn catalog_merges_sources_sorted_by_id() {
    let mut catalog = CorpusCatalog::from_sources(vec![
        StaticCorpusSource::new("b".into(), vec![corpus("z.last", "games", CorpusActivation::Always, &["Z"])]),
        StaticCorpusSource::new("a".into(), vec![corpus("a.first", "games", CorpusActivation::Always, &["A"])]),
    ])
    .unwrap();
    assert_eq!(ids(&catalog.snapshot_at(0).unwrap()), ["a.first", "z.last"]);
    let (corpora, revision) = catalog.snapshot_with_revision_at(0).unwrap();
    assert_eq!(corpora.len(), 2);
    assert_eq!(revision, 0);
}

#[test]
fn duplicate_identifiers_across_sources_are_refused() {
    let duplicated = CorpusCatalog::from_sources(vec![
        StaticCorpusSource::new("a".into(), vec![corpus("same.id", "games", CorpusActivation::Always, &["A"])]),
        StaticCorpusSource::new("b".into(), vec![corpus("same.id", "games", CorpusActivation::Always, &["B"])]),
    ]);
    assert!(duplicated.is_err());
    let definitions = CorpusCatalog::from_definitions(vec![
        corpus("same.id", "games", CorpusActivation::Always, &["A"]),
        corpus("same.id", "games", CorpusActivation::Always, &["B"]),
    ]);
    assert!(definitions.is_err());
}

#[test]
fn disabled_graph_domains_hide_runtime_corpora() {
    let projection = GraphProjection {
        corpora: vec![corpus("games.persisted", "games", CorpusActivation::Always, &["Mercy"])],
        disabled_domains: vec!["virtual-worlds".into()],
        revision: 7,
    };
    let mut catalog = CorpusCatalog::from_projection(projection).unwrap();
    catalog
        .dynamic_source_mut()
        .replace_snapshot_at(
            "room",
            vec![
                corpus("virtual-worlds.room", "virtual-worlds", CorpusActivation::Always, &["Bob"]),
                corpus("games.room", "games", CorpusActivation::Always, &["Genji"]),
            ],
            None,
            0,
        )
        .unwrap();
    let (corpora, revision) = catalog.snapshot_with_revision_at(0).unwrap();
    assert_eq!(ids(&corpora), ["games.persisted", "games.room"]);
    assert_eq!(revision, 7);
    let terms = catalog.runtime_activation_terms_at(0).unwrap();
    assert_eq!(terms.len(), 1);
    assert_eq!(terms[0].ordered_values[1], "Genji");
    assert_eq!(catalog.graph_projection().unwrap().revision, 7);
}

#[test]
fn runtime_terms_come_only_from_always_active_provider_corpora() {
    let mut catalog = CorpusCatalog::from_definitions(vec![corpus(
        "games.static",
        "games",
        CorpusActivation::Always,
        &["Static"],
    )])
    .unwrap();
    catalog
        .dynamic_source_mut()
        .replace_snapshot_at(
            "room",
            vec![
                corpus("runtime.always", "games", CorpusActivation::Always, &["Live"]),
                corpus("runtime.runtime", "games", CorpusActivation::RuntimeOnly, &["Quiet"]),
            ],
            Some(10),
            0,
        )
        .unwrap();
    let terms = catalog.runtime_activation_terms_at(5).unwrap();
    assert_eq!(terms.len(), 1);
    assert_eq!(terms[0].ordered_values[1], "Live");
    assert!(catalog.runtime_activation_terms_at(10).unwrap().is_empty());
}

#[test]
fn sources_are_read_through_one_contract() {
    let mut dynamic = DynamicCorpusSource::new();
    dynamic
        .replace_snapshot(
            "room",
            vec![corpus("runtime.room", "virtual-worlds", CorpusActivation::Always, &["Bob"])],
            None,
        )
        .unwrap();
    let mut sources: Vec<Box<dyn CorpusSource>> = vec![
        Box::new(StaticCorpusSource::new(
            "fixed".into(),
            vec![corpus("games.fixed", "games", CorpusActivation::Always, &["A"])],
        )),
        Box::new(dynamic),
    ];
    let ids: Vec<&str> = sources.iter().map(|source| source.source_id()).collect();
    assert_eq!(ids, ["fixed", "runtime-dynamic"]);
    let counts: Vec<usize> =
        sources.iter_mut().map(|source| source.snapshot().unwrap().len()).collect();
    assert_eq!(counts, [1, 1]);
}

#[test]
fn catalog_snapshots_drop_expired_provider_snapshots() {
    let mut catalog = CorpusCatalog::from_definitions(vec![corpus(
        "games.static",
        "games",
        CorpusActivation::Always,
        &["Static"],
    )])
    .unwrap();
    catalog
        .dynamic_source_mut()
        .replace_snapshot_at(
            "room",
            vec![corpus("runtime.room", "games", CorpusActivation::Always, &["Live"])],
            Some(10),
            0,
        )
        .unwrap();
    assert_eq!(ids(&catalog.snapshot_at(5).unwrap()), ["games.static", "runtime.room"]);
    assert_eq!(ids(&catalog.snapshot_at(10).unwrap()), ["games.static"]);
    assert!(catalog.dynamic_source().snapshot_at(0).is_empty());
}

#[test]
fn programmatic_definitions_snapshot_sorted_by_id() {
    let mut catalog = CorpusCatalog::from_definitions(vec![
        corpus("m.middle", "games", CorpusActivation::Always, &["M"]),
        corpus("a.first", "games", CorpusActivation::Always, &["A"]),
        corpus("z.last", "games", CorpusActivation::Always, &["Z"]),
    ])
    .unwrap();
    assert_eq!(ids(&catalog.snapshot_at(0).unwrap()), ["a.first", "m.middle", "z.last"]);
    assert!(catalog.dynamic_source().snapshot_at(0).is_empty());
    let duplicated = CorpusCatalog::from_definitions(vec![
        corpus("same.id", "games", CorpusActivation::Always, &["A"]),
        corpus("same.id", "games", CorpusActivation::Always, &["B"]),
    ]);
    assert!(duplicated.is_err());
}

#[test]
fn provider_blocks_follow_provider_order_and_republishing_changes_nothing() {
    let mut dynamic = DynamicCorpusSource::new();
    let zeta = vec![corpus("runtime.z1", "virtual-worlds", CorpusActivation::Always, &["Z"])];
    let alpha = vec![
        corpus("runtime.a2", "virtual-worlds", CorpusActivation::Always, &["A2"]),
        corpus("runtime.a1", "virtual-worlds", CorpusActivation::Always, &["A1"]),
    ];
    dynamic.replace_snapshot_at("zeta", zeta, None, 0).unwrap();
    dynamic.replace_snapshot_at("alpha", alpha.clone(), None, 0).unwrap();
    assert_eq!(ids(&dynamic.snapshot_at(1)), ["runtime.a2", "runtime.a1", "runtime.z1"]);
    dynamic.replace_snapshot_at("alpha", alpha, None, 0).unwrap();
    assert_eq!(ids(&dynamic.snapshot_at(1)), ["runtime.a2", "runtime.a1", "runtime.z1"]);
}
