use xr_corpus::corpus::CorpusActivation;
use xr_corpus::graph::{
    GraphDomain, GraphEdge, GraphEdgeKind, GraphNode, GraphNodeStatePatch, GraphProjection,
    GraphSnapshot, activation_name, check_deletable_domain, edge_from_row, is_saved_node,
    node_from_row, node_values_json, normalized_values,
    parse_activation, validate_domain, validate_edge, validate_node, validate_patch,
    with_next_revision,
};
use xr_corpus::language::LANGUAGE_COUNT;
use xr_corpus::projection::project;

fn values(zh: &str, en: &str) -> Vec<String> {
    let mut row = vec![String::new(); LANGUAGE_COUNT];
    row[0] = zh.into();
    row[1] = en.into();
    row
}

fn domain(id: &str, enabled: bool) -> GraphDomain {
    GraphDomain { id: id.into(), title: id.to_uppercase(), enabled }
}

fn node(id: &str, domain_id: &str, activation: CorpusActivation, priority: i32, en: &str) -> GraphNode {
    GraphNode {
        id: id.into(),
        domain_id: domain_id.into(),
        subdomain: "ow".into(),
        title: "Overwatch".into(),
        enabled: true,
        promptable: true,
        activation,
        priority,
        values: values("", en),
    }
}

fn edge(source: &str, target: &str, kind: GraphEdgeKind) -> GraphEdge {
    GraphEdge { source_id: source.into(), target_id: target.into(), kind, enabled: true }
}

fn sample() -> GraphSnapshot {
    let mut trigger = node("games.ow.trigger", "games", CorpusActivation::Always, 5, "Overwatch");
    trigger.promptable = false;
    GraphSnapshot {
        domains: vec![domain("games", true), domain("off", false)],
        nodes: vec![
            node("games.ow.term-dva", "games", CorpusActivation::OnEvidence, 5, "D.Va"),
            node("games.ow.term-genji", "games", CorpusActivation::Always, 5, "Genji"),
            node("games.ow.term-mercy", "games", CorpusActivation::Always, 5, "Mercy"),
            trigger,
            node("off.x.term-a", "off", CorpusActivation::Always, 5, "Hidden"),
        ],
        edges: vec![
            edge("games.ow.trigger", "games.ow.term-dva", GraphEdgeKind::Trigger),
            edge("missing.node", "games.ow.term-genji", GraphEdgeKind::Trigger),
        ],
    }
}

#[test]
fn projection_groups_nodes_into_corpora() {
    let projection = project(&sample()).unwrap();
    assert_eq!(projection.revision, 0);
    assert_eq!(projection.disabled_domains, ["off"]);
    let ids: Vec<&str> = projection.corpora.iter().map(|c| c.id.as_str()).collect();
    assert_eq!(ids, ["games.ow.term-dva", "games.ow"]);

    let dva = &projection.corpora[0];
    assert_eq!(dva.activation, CorpusActivation::OnEvidence);
    assert!(dva.triggers.is_empty());
    assert_eq!(dva.trigger_aliases.len(), 1);
    assert_eq!(dva.trigger_aliases[0].ordered_values[1], "Overwatch");
    assert_eq!(dva.terms.len(), 1);

    let heroes = &projection.corpora[1];
    assert_eq!(heroes.domain, "games");
    assert_eq!(heroes.subdomain, "ow");
    assert_eq!(heroes.title, "Overwatch");
    assert!(heroes.triggers.is_empty() && heroes.trigger_aliases.is_empty());
    let names: Vec<&str> = heroes.terms.iter().map(|t| t.ordered_values[1].as_str()).collect();
    assert_eq!(names, ["Genji", "Mercy"]);
}

#[test]
fn promptable_trigger_sources_become_triggers_and_context_edges_context() {
    let mut snapshot = sample();
    snapshot.nodes[3].promptable = true;
    snapshot.edges.push(edge("games.ow.term-mercy", "games.ow.term-dva", GraphEdgeKind::Context));
    let projection = project(&snapshot).unwrap();
    let dva = projection
        .corpora
        .iter()
        .find(|c| c.terms[0].ordered_values[1] == "D.Va")
        .unwrap();
    assert_eq!(dva.triggers.len(), 1);
    assert!(dva.trigger_aliases.is_empty());
    assert_eq!(dva.activation_context.len(), 1);
    assert_eq!(dva.activation_context[0].ordered_values[1], "Mercy");
}

#[test]
fn on_evidence_node_without_trigger_is_left_out() {
    let mut snapshot = sample();
    snapshot.edges[0].enabled = false;
    let projection = project(&snapshot).unwrap();
    let ids: Vec<&str> = projection.corpora.iter().map(|c| c.id.as_str()).collect();
    assert_eq!(ids, ["games.ow"]);
}

#[test]
fn colliding_identifiers_get_group_suffixes() {
    let snapshot = GraphSnapshot {
        domains: vec![domain("games", true)],
        nodes: vec![
            node("a", "games", CorpusActivation::Always, 1, "One"),
            node("a.term-2", "games", CorpusActivation::Always, 2, "Two"),
            node("a.term-3", "games", CorpusActivation::Always, 2, "Three"),
        ],
        edges: Vec::new(),
    };
    let projection = project(&snapshot).unwrap();
    let ids: Vec<&str> = projection.corpora.iter().map(|c| c.id.as_str()).collect();
    assert_eq!(ids, ["a", "a-group-2"]);
}

#[test]
fn invalid_graph_records_are_refused() {
    let mut snapshot = sample();
    snapshot.nodes[0].domain_id = "nowhere".into();
    assert!(project(&snapshot).is_err());

    let mut snapshot = sample();
    snapshot.domains.push(domain("games", true));
    assert!(project(&snapshot).is_err());

    let mut snapshot = sample();
    snapshot.nodes[1].activation = CorpusActivation::RuntimeOnly;
    assert!(project(&snapshot).is_err());

    let mut snapshot = sample();
    snapshot.edges[0].source_id = "bad id".into();
    assert!(project(&snapshot).is_err());
}

#[test]
fn empty_graph_projects_to_nothing() {
    let projection = project(&GraphSnapshot::default()).unwrap();
    assert!(projection.corpora.is_empty());
    assert!(projection.disabled_domains.is_empty());
}

#[test]
fn revision_advances_only_on_semantic_change() {
    let first = project(&sample()).unwrap();
    let previous = GraphProjection { revision: 4, ..first };
    let same = with_next_revision(&previous, project(&sample()).unwrap());
    assert_eq!(same.revision, 4);
    let mut changed_graph = sample();
    changed_graph.nodes[2].values = values("", "Lucio");
    let changed = with_next_revision(&previous, project(&changed_graph).unwrap());
    assert_eq!(changed.revision, 5);
    let mut disabled_graph = sample();
    disabled_graph.domains[1].enabled = true;
    let enabled = with_next_revision(&previous, project(&disabled_graph).unwrap());
    assert_eq!(enabled.revision, 5);
}

#[test]
fn edge_kinds_and_activations_round_trip() {
    assert_eq!(GraphEdgeKind::Trigger.as_str(), "trigger");
    assert_eq!(GraphEdgeKind::Context.as_str(), "context");
    assert_eq!(GraphEdgeKind::parse("trigger").unwrap(), GraphEdgeKind::Trigger);
    assert_eq!(GraphEdgeKind::parse("context").unwrap(), GraphEdgeKind::Context);
    assert!(GraphEdgeKind::parse("alias").is_err());
    for activation in [CorpusActivation::OnEvidence, CorpusActivation::Always, CorpusActivation::RuntimeOnly] {
        assert_eq!(parse_activation(activation_name(activation)).unwrap(), activation);
    }
    assert_eq!(activation_name(CorpusActivation::OnEvidence), "on-evidence");
    assert!(parse_activation("sometimes").is_err());
}

#[test]
fn graph_edits_are_checked_before_saving() {
    assert!(validate_domain(&domain("games", true)).is_ok());
    assert!(validate_domain(&GraphDomain { id: " games".into(), title: "G".into(), enabled: true }).is_err());
    assert!(validate_domain(&GraphDomain { id: "games".into(), title: "a\nb".into(), enabled: true }).is_err());

    let good = node("games.ow.term-mercy", "games", CorpusActivation::Always, 5, "Mercy");
    assert!(validate_node(&good).is_ok());
    let runtime = node("games.ow.term-x", "games", CorpusActivation::RuntimeOnly, 5, "X");
    assert_eq!(
        validate_node(&runtime).unwrap_err(),
        "runtime-only activation is reserved for transient providers"
    );
    let mut short = good.clone();
    short.values.pop();
    assert!(validate_node(&short).is_err());

    let patch = GraphNodeStatePatch { ids: vec!["a".into(), "b".into()], enabled: Some(false), domain_id: None };
    assert!(validate_patch(&patch).is_ok());
    let empty = GraphNodeStatePatch { ids: Vec::new(), enabled: Some(false), domain_id: None };
    assert_eq!(validate_patch(&empty).unwrap_err(), "node state patch needs at least one ID");
    let nothing = GraphNodeStatePatch { ids: vec!["a".into()], enabled: None, domain_id: None };
    assert_eq!(validate_patch(&nothing).unwrap_err(), "node state patch has no changes");
    let duplicate = GraphNodeStatePatch { ids: vec!["a".into(), "a".into()], enabled: Some(true), domain_id: None };
    assert!(validate_patch(&duplicate).is_err());

    assert!(validate_edge(&edge("a", "b", GraphEdgeKind::Trigger)).is_ok());
    assert!(validate_edge(&edge("a", "", GraphEdgeKind::Trigger)).is_err());

    assert_eq!(check_deletable_domain("vrcx").unwrap_err(), "VRCX runtime domain cannot be deleted");
    assert!(check_deletable_domain("games").is_ok());
}

#[test]
fn saved_nodes_are_recognized() {
    let snapshot = sample();
    assert!(is_saved_node(&snapshot, &snapshot.nodes[1].clone()));
    let mut changed = snapshot.nodes[1].clone();
    changed.priority = 9;
    assert!(!is_saved_node(&snapshot, &changed));
}

#[test]
fn node_values_are_normalized_for_comparison() {
    let values = vec!["  Hello ".to_owned(), "WORLD".to_owned(), String::new()];
    assert_eq!(normalized_values(&values), "hello\u{1f}world\u{1f}");
}

#[test]
fn stored_rows_are_read_back() {
    let node = node_from_row(
        "games.ow.term-mercy".into(),
        "games".into(),
        "ow".into(),
        "Overwatch".into(),
        true,
        false,
        "on-evidence",
        3,
        "[\"天使\",\"Mercy\"]",
    )
    .unwrap();
    assert_eq!(node.activation, CorpusActivation::OnEvidence);
    assert_eq!(node.values, ["天使", "Mercy"]);
    assert!(!node.promptable);
    assert_eq!(node.priority, 3);
    assert!(node_from_row("a".into(), "d".into(), "s".into(), "t".into(), true, true, "often", 0, "[]").is_err());
    let bad = node_from_row("a".into(), "d".into(), "s".into(), "t".into(), true, true, "always", 0, "{");
    assert!(bad.unwrap_err().starts_with("invalid node values: "));

    let edge = edge_from_row("a".into(), "b".into(), "context", true).unwrap();
    assert_eq!(edge.kind, GraphEdgeKind::Context);
    assert_eq!(edge.source_id, "a");
    assert!(edge_from_row("a".into(), "b".into(), "bogus", true).is_err());
}

#[test]
fn node_values_are_stored_as_json() {
    let mercy = node("games.ow.term-mercy", "games", CorpusActivation::Always, 5, "Mercy");
    let json = node_values_json(&mercy).unwrap();
    assert!(json.starts_with("[\"\",\"Mercy\",\"\""));
    let read = node_from_row(
        mercy.id.clone(),
        mercy.domain_id.clone(),
        mercy.subdomain.clone(),
        mercy.title.clone(),
        true,
        true,
        "always",
        5,
        &json,
    )
    .unwrap();
    assert_eq!(read, mercy);
}
