//! The persisted terminology graph: domains, nodes and edges, and its
//! projection into corpus definitions.

use vstd::prelude::*;

use crate::corpus::{
    CorpusActivation, CorpusDefinition, CorpusTerm, DefinitionView, check_id, check_title,
    clone_definitions, clone_strings, definitions_view, message, terms_view, valid_id,
    valid_term_values, valid_title,
};
use crate::language::strings_contain;
use crate::prompt::{join, join_strings, sv};
use crate::text::{
    chars_of, lowercase_str, owned, str_eq, str_lowercase, string_from_chars, trim, trim_chars,
};

verus! {

broadcast use vstd::string::group_string_axioms;

/// The read view of the graph used during inference: its corpora, the
/// domains switched off, and a revision that counts semantic changes.
#[derive(Debug)]
pub struct GraphProjection {
    pub corpora: Vec<CorpusDefinition>,
    pub disabled_domains: Vec<String>,
    pub revision: u64,
}

/// The mathematical content of a projection.
pub struct ProjectionView {
    pub corpora: Seq<DefinitionView>,
    pub disabled_domains: Set<Seq<char>>,
    pub revision: u64,
}

impl View for GraphProjection {
    type V = ProjectionView;

    open spec fn view(&self) -> ProjectionView {
        ProjectionView {
            corpora: definitions_view(self.corpora@),
            disabled_domains: sv(self.disabled_domains@).to_set(),
            revision: self.revision,
        }
    }
}

impl Clone for GraphProjection {
    fn clone(&self) -> (r: Self)
        ensures
            r@ == self@,
    {
        let corpora = clone_definitions(&self.corpora);
        let disabled_domains = clone_strings(&self.disabled_domains);
        proof {
            assert(sv(disabled_domains@) =~= sv(self.disabled_domains@));
        }
        GraphProjection { corpora, disabled_domains, revision: self.revision }
    }
}

// ---------------------------------------------------------------------------
// Graph records.
// ---------------------------------------------------------------------------

/// A top-level graph domain, which can be switched off as a whole.
#[derive(Debug, PartialEq, Eq)]
pub struct GraphDomain {
    pub id: String,
    pub title: String,
    pub enabled: bool,
}

/// The mathematical content of a domain.
pub struct DomainView {
    pub id: Seq<char>,
    pub title: Seq<char>,
    pub enabled: bool,
}

impl View for GraphDomain {
    type V = DomainView;

    open spec fn view(&self) -> DomainView {
        DomainView { id: self.id@, title: self.title@, enabled: self.enabled }
    }
}

impl Clone for GraphDomain {
    fn clone(&self) -> (r: Self)
        ensures
            r@ == self@,
    {
        GraphDomain { id: self.id.clone(), title: self.title.clone(), enabled: self.enabled }
    }
}

/// One concept node: its values in language-column order and how it may
/// enter prompts.
#[derive(Debug, PartialEq, Eq)]
pub struct GraphNode {
    pub id: String,
    pub domain_id: String,
    pub subdomain: String,
    pub title: String,
    pub enabled: bool,
    pub promptable: bool,
    pub activation: CorpusActivation,
    pub priority: i32,
    pub values: Vec<String>,
}

/// The mathematical content of a node.
pub struct NodeView {
    pub id: Seq<char>,
    pub domain_id: Seq<char>,
    pub subdomain: Seq<char>,
    pub title: Seq<char>,
    pub enabled: bool,
    pub promptable: bool,
    pub activation: CorpusActivation,
    pub priority: i32,
    pub values: Seq<Seq<char>>,
}

impl View for GraphNode {
    type V = NodeView;

    open spec fn view(&self) -> NodeView {
        NodeView {
            id: self.id@,
            domain_id: self.domain_id@,
            subdomain: self.subdomain@,
            title: self.title@,
            enabled: self.enabled,
            promptable: self.promptable,
            activation: self.activation,
            priority: self.priority,
            values: sv(self.values@),
        }
    }
}

impl Clone for GraphNode {
    fn clone(&self) -> (r: Self)
        ensures
            r@ == self@,
    {
        let values = clone_strings(&self.values);
        proof {
            assert(sv(values@) =~= sv(self.values@));
        }
        GraphNode {
            id: self.id.clone(),
            domain_id: self.domain_id.clone(),
            subdomain: self.subdomain.clone(),
            title: self.title.clone(),
            enabled: self.enabled,
            promptable: self.promptable,
            activation: self.activation,
            priority: self.priority,
            values,
        }
    }
}

/// A change of state for a set of nodes: enablement, domain, or both.
#[derive(Debug, PartialEq, Eq)]
pub struct GraphNodeStatePatch {
    pub ids: Vec<String>,
    pub enabled: Option<bool>,
    pub domain_id: Option<String>,
}

/// How an edge's source relates to its target.
#[derive(Clone, Copy, Debug, PartialEq, Eq, Structural)]
pub enum GraphEdgeKind {
    Trigger,
    Context,
}

impl GraphEdgeKind {
    /// The stored name of the kind.
    pub fn as_str(self) -> (r: &'static str)
        ensures
            r@ == edge_kind_name(self),
    {
        match self {
            GraphEdgeKind::Trigger => "trigger",
            GraphEdgeKind::Context => "context",
        }
    }

    /// Reads a stored kind name.
    pub fn parse(value: &str) -> (r: Result<Self, String>)
        ensures
            match r {
                Ok(k) => edge_kind_name(k) == value@,
                Err(_) => value@ != "trigger"@ && value@ != "context"@,
            },
    {
        if str_eq(value, "trigger") {
            Ok(GraphEdgeKind::Trigger)
        } else if str_eq(value, "context") {
            Ok(GraphEdgeKind::Context)
        } else {
            Err(message(&["invalid graph edge kind ", value]))
        }
    }
}

/// The stored name of an edge kind.
pub open spec fn edge_kind_name(k: GraphEdgeKind) -> Seq<char> {
    match k {
        GraphEdgeKind::Trigger => "trigger"@,
        GraphEdgeKind::Context => "context"@,
    }
}

/// A directed relation between two nodes.
#[derive(Debug, PartialEq, Eq)]
pub struct GraphEdge {
    pub source_id: String,
    pub target_id: String,
    pub kind: GraphEdgeKind,
    pub enabled: bool,
}

/// The mathematical content of an edge.
pub struct EdgeView {
    pub source_id: Seq<char>,
    pub target_id: Seq<char>,
    pub kind: GraphEdgeKind,
    pub enabled: bool,
}

impl View for GraphEdge {
    type V = EdgeView;

    open spec fn view(&self) -> EdgeView {
        EdgeView {
            source_id: self.source_id@,
            target_id: self.target_id@,
            kind: self.kind,
            enabled: self.enabled,
        }
    }
}

impl Clone for GraphEdge {
    fn clone(&self) -> (r: Self)
        ensures
            r@ == self@,
    {
        GraphEdge {
            source_id: self.source_id.clone(),
            target_id: self.target_id.clone(),
            kind: self.kind,
            enabled: self.enabled,
        }
    }
}

/// The whole graph: domains, nodes and edges.
#[derive(Debug, PartialEq, Eq)]
pub struct GraphSnapshot {
    pub domains: Vec<GraphDomain>,
    pub nodes: Vec<GraphNode>,
    pub edges: Vec<GraphEdge>,
}

/// The mathematical content of a graph.
pub struct GraphView {
    pub domains: Seq<DomainView>,
    pub nodes: Seq<NodeView>,
    pub edges: Seq<EdgeView>,
}

impl View for GraphSnapshot {
    type V = GraphView;

    open spec fn view(&self) -> GraphView {
        GraphView {
            domains: self.domains@.map_values(|d: GraphDomain| d@),
            nodes: self.nodes@.map_values(|n: GraphNode| n@),
            edges: self.edges@.map_values(|e: GraphEdge| e@),
        }
    }
}

impl Default for GraphSnapshot {
    fn default() -> (r: Self)
        ensures
            r@.domains.len() == 0 && r@.nodes.len() == 0 && r@.edges.len() == 0,
    {
        GraphSnapshot { domains: Vec::new(), nodes: Vec::new(), edges: Vec::new() }
    }
}

/// The stored name of an activation mode.
pub open spec fn activation_name_spec(a: CorpusActivation) -> Seq<char> {
    match a {
        CorpusActivation::OnEvidence => "on-evidence"@,
        CorpusActivation::Always => "always"@,
        CorpusActivation::RuntimeOnly => "runtime-only"@,
    }
}

/// The stored name of an activation mode.
pub fn activation_name(value: CorpusActivation) -> (r: &'static str)
    ensures
        r@ == activation_name_spec(value),
{
    match value {
        CorpusActivation::OnEvidence => "on-evidence",
        CorpusActivation::Always => "always",
        CorpusActivation::RuntimeOnly => "runtime-only",
    }
}

/// Reads a stored activation name.
pub fn parse_activation(value: &str) -> (r: Result<CorpusActivation, String>)
    ensures
        match r {
            Ok(a) => activation_name_spec(a) == value@,
            Err(_) => value@ != "on-evidence"@ && value@ != "always"@ && value@ != "runtime-only"@,
        },
{
    if str_eq(value, "on-evidence") {
        Ok(CorpusActivation::OnEvidence)
    } else if str_eq(value, "always") {
        Ok(CorpusActivation::Always)
    } else if str_eq(value, "runtime-only") {
        Ok(CorpusActivation::RuntimeOnly)
    } else {
        Err(message(&["invalid node activation ", value]))
    }
}

/// A node's values, trimmed and lowercased, joined by U+001F: the form in
/// which trigger sources are compared.
pub open spec fn normalized_spec(values: Seq<Seq<char>>) -> Seq<char> {
    join(values.map_values(|v: Seq<char>| str_lowercase(trim(v))), "\u{1f}"@)
}

/// Normalizes node values (see `normalized_spec`).
pub fn normalized_values(values: &Vec<String>) -> (r: String)
    ensures
        r@ == normalized_spec(sv(values@)),
{
    let mut parts: Vec<String> = Vec::new();
    let mut i: usize = 0;
    while i < values.len()
        invariant
            0 <= i <= values@.len(),
            sv(parts@) == sv(values@).take(i as int).map_values(|v: Seq<char>| str_lowercase(trim(v))),
        decreases values@.len() - i,
    {
        let chars = chars_of(values[i].as_str());
        let trimmed = trim_chars(chars.as_slice());
        let t = string_from_chars(trimmed.as_slice());
        let lower = lowercase_str(t.as_str());
        let ghost before = sv(parts@);
        parts.push(lower);
        assert(sv(parts@) =~= before.push(str_lowercase(trim(values@[i as int]@))));
        assert(sv(values@).take(i + 1).map_values(|v: Seq<char>| str_lowercase(trim(v))) =~= sv(
            values@,
        ).take(i as int).map_values(|v: Seq<char>| str_lowercase(trim(v))).push(
            str_lowercase(trim(values@[i as int]@)),
        ));
        i = i + 1;
    }
    assert(sv(values@).take(values@.len() as int) =~= sv(values@));
    join_strings(parts.as_slice(), "\u{1f}")
}

// ---------------------------------------------------------------------------
// Stored rows.
// ---------------------------------------------------------------------------

/// The strings a JSON text encodes when it is a JSON array of strings, as
/// `serde_json` reads it.
pub uninterp spec fn json_string_array(text: Seq<char>) -> Option<Seq<Seq<char>>>;

/// The JSON text `serde_json` writes for a list of strings.
pub uninterp spec fn string_array_json(values: Seq<Seq<char>>) -> Seq<char>;

/// Calls `serde_json::from_str::<Vec<String>>`; the result is named by
/// `json_string_array`, and the error is `serde_json`'s message.
#[verifier::external_body]
fn parse_string_array(text: &str) -> (r: Result<Vec<String>, String>)
    ensures
        match r {
            Ok(v) => json_string_array(text@) == Some(sv(v@)),
            Err(_) => json_string_array(text@) is None,
        },
{
    serde_json::from_str::<Vec<String>>(text).map_err(|error| error.to_string())
}

/// Calls `serde_json::to_string` on a list of strings; the text is named by
/// `string_array_json`. It always succeeds: `serde_json` documents failures
/// only for a `Serialize` impl that fails or a map with non-string keys, and
/// a list of strings is neither.
#[verifier::external_body]
fn encode_string_array(values: &Vec<String>) -> (r: Result<String, String>)
    ensures
        r is Ok,
        r matches Ok(s) ==> s@ == string_array_json(sv(values@)),
{
    serde_json::to_string(values).map_err(|error| error.to_string())
}

/// The activation a stored name denotes.
pub open spec fn activation_named(name: Seq<char>) -> Option<CorpusActivation> {
    if name == "on-evidence"@ {
        Some(CorpusActivation::OnEvidence)
    } else if name == "always"@ {
        Some(CorpusActivation::Always)
    } else if name == "runtime-only"@ {
        Some(CorpusActivation::RuntimeOnly)
    } else {
        None
    }
}

/// Builds a node from a stored row whose values are JSON text; the row is
/// refused when its activation name or its values cannot be read.
pub fn node_from_row(
    id: String,
    domain_id: String,
    subdomain: String,
    title: String,
    enabled: bool,
    promptable: bool,
    activation: &str,
    priority: i32,
    values_json: &str,
) -> (r: Result<GraphNode, String>)
    ensures
        r is Ok <==> activation_named(activation@) is Some && json_string_array(values_json@) is Some,
        r matches Ok(n) ==> n@ == (NodeView {
            id: id@,
            domain_id: domain_id@,
            subdomain: subdomain@,
            title: title@,
            enabled,
            promptable,
            activation: activation_named(activation@)->0,
            priority,
            values: json_string_array(values_json@)->0,
        }),
{
    proof {
        reveal_strlit("on-evidence");
        reveal_strlit("always");
        reveal_strlit("runtime-only");
    }
    let ghost name = activation@;
    let activation = match parse_activation(activation) {
        Ok(a) => a,
        Err(e) => {
            return Err(e);
        },
    };
    proof {
        assert("on-evidence"@ != "always"@ && "on-evidence"@ != "runtime-only"@ && "always"@
            != "runtime-only"@) by {
            assert("on-evidence"@.len() != "always"@.len());
            assert("always"@.len() != "runtime-only"@.len());
            assert("on-evidence"@[0] != "runtime-only"@[0]);
        }
        assert(activation_named(name) == Some(activation));
    }
    let values = match parse_string_array(values_json) {
        Ok(v) => v,
        Err(e) => {
            return Err(message(&["invalid node values: ", e.as_str()]));
        },
    };
    Ok(GraphNode { id, domain_id, subdomain, title, enabled, promptable, activation, priority, values })
}

/// The edge kind a stored name denotes.
pub open spec fn edge_kind_named(name: Seq<char>) -> Option<GraphEdgeKind> {
    if name == "trigger"@ {
        Some(GraphEdgeKind::Trigger)
    } else if name == "context"@ {
        Some(GraphEdgeKind::Context)
    } else {
        None
    }
}

/// Builds an edge from a stored row; the row is refused when its kind
/// name cannot be read.
pub fn edge_from_row(source_id: String, target_id: String, kind: &str, enabled: bool) -> (r: Result<
    GraphEdge,
    String,
>)
    ensures
        r is Ok <==> edge_kind_named(kind@) is Some,
        r matches Ok(e) ==> e@ == (EdgeView {
            source_id: source_id@,
            target_id: target_id@,
            kind: edge_kind_named(kind@)->0,
            enabled,
        }),
{
    proof {
        reveal_strlit("trigger");
        reveal_strlit("context");
    }
    match GraphEdgeKind::parse(kind) {
        Ok(k) => {
            assert("trigger"@[0] != "context"@[0]);
            assert(edge_kind_named(kind@) == Some(k));
            Ok(GraphEdge { source_id, target_id, kind: k, enabled })
        },
        Err(e) => Err(e),
    }
}

/// The JSON text under which a node's values are stored; encoding a list
/// of strings always succeeds.
pub fn node_values_json(node: &GraphNode) -> (r: Result<String, String>)
    ensures
        r matches Ok(s) && s@ == string_array_json(node@.values),
{
    match encode_string_array(&node.values) {
        Ok(s) => Ok(s),
        Err(e) => Err(message(&["cannot encode node values: ", e.as_str()])),
    }
}

// ---------------------------------------------------------------------------
// Checks made before a graph edit.
// ---------------------------------------------------------------------------

/// Whether a domain may be saved.
pub open spec fn valid_domain(d: DomainView) -> bool {
    valid_id(d.id) && valid_title(d.title)
}

/// Checks a domain before it is saved.
pub fn validate_domain(domain: &GraphDomain) -> (r: Result<(), String>)
    ensures
        r is Ok <==> valid_domain(domain@),
{
    match check_id(domain.id.as_str(), "domain ID") {
        Ok(()) => {},
        Err(e) => {
            return Err(e);
        },
    }
    check_title(domain.title.as_str(), "domain title")
}

/// Whether a node may be saved: valid identifiers and title, not a
/// runtime-only node, and values forming a valid term.
pub open spec fn valid_node(n: NodeView) -> bool {
    &&& valid_id(n.id)
    &&& valid_id(n.domain_id)
    &&& valid_id(n.subdomain)
    &&& valid_title(n.title)
    &&& n.activation != CorpusActivation::RuntimeOnly
    &&& valid_term_values(n.values)
}

/// Checks a node before it is saved.
pub fn validate_node(node: &GraphNode) -> (r: Result<(), String>)
    ensures
        r is Ok <==> valid_node(node@),
{
    match check_id(node.id.as_str(), "node ID") {
        Ok(()) => {},
        Err(e) => {
            return Err(e);
        },
    }
    match check_id(node.domain_id.as_str(), "node domain ID") {
        Ok(()) => {},
        Err(e) => {
            return Err(e);
        },
    }
    match check_id(node.subdomain.as_str(), "node subdomain") {
        Ok(()) => {},
        Err(e) => {
            return Err(e);
        },
    }
    match check_title(node.title.as_str(), "node title") {
        Ok(()) => {},
        Err(e) => {
            return Err(e);
        },
    }
    if node.activation == CorpusActivation::RuntimeOnly {
        return Err(owned("runtime-only activation is reserved for transient providers"));
    }
    let term = CorpusTerm { ordered_values: clone_strings(&node.values) };
    assert(term@ == sv(node.values@));
    term.validate("graph node")
}

/// Whether a node state patch may be applied: it names at least one node,
/// changes something, and every identifier is valid and named once.
pub open spec fn valid_patch(ids: Seq<Seq<char>>, enabled: Option<bool>, domain_id: Option<Seq<char>>) -> bool {
    &&& ids.len() > 0
    &&& (enabled is Some || domain_id is Some)
    &&& domain_id matches Some(d) ==> valid_id(d)
    &&& forall|k: int| 0 <= k < ids.len() ==> valid_id(#[trigger] ids[k])
    &&& forall|i: int, j: int| 0 <= i < j < ids.len() ==> ids[i] != ids[j]
}

/// Checks a node state patch before it is applied.
pub fn validate_patch(patch: &GraphNodeStatePatch) -> (r: Result<(), String>)
    ensures
        r is Ok <==> valid_patch(
            sv(patch.ids@),
            patch.enabled,
            match patch.domain_id {
                Some(d) => Some(d@),
                None => None,
            },
        ),
{
    if patch.ids.len() == 0 {
        return Err(owned("node state patch needs at least one ID"));
    }
    if patch.enabled.is_none() && patch.domain_id.is_none() {
        return Err(owned("node state patch has no changes"));
    }
    match &patch.domain_id {
        Some(d) => match check_id(d.as_str(), "node domain ID") {
            Ok(()) => {},
            Err(e) => {
                return Err(e);
            },
        },
        None => {},
    }
    let ghost ids = sv(patch.ids@);
    let mut k: usize = 0;
    while k < patch.ids.len()
        invariant
            0 <= k <= patch.ids@.len(),
            ids == sv(patch.ids@),
            forall|q: int| 0 <= q < k ==> valid_id(#[trigger] ids[q]),
            forall|i: int, j: int| 0 <= i < j < k ==> ids[i] != ids[j],
        decreases patch.ids@.len() - k,
    {
        match check_id(patch.ids[k].as_str(), "node ID") {
            Ok(()) => {},
            Err(e) => {
                assert(!valid_id(ids[k as int]));
                return Err(e);
            },
        }
        let mut q: usize = 0;
        while q < k
            invariant
                0 <= q <= k < patch.ids@.len(),
                ids == sv(patch.ids@),
                forall|z: int| 0 <= z < q ==> ids[z] != ids[k as int],
            decreases k - q,
        {
            if str_eq(patch.ids[q].as_str(), patch.ids[k].as_str()) {
                assert(ids[q as int] == ids[k as int]);
                return Err(message(&["duplicate node ID ", patch.ids[k].as_str()]));
            }
            q = q + 1;
        }
        k = k + 1;
    }
    Ok(())
}

/// Checks an edge's endpoints before it is saved.
pub fn validate_edge(edge: &GraphEdge) -> (r: Result<(), String>)
    ensures
        r is Ok <==> valid_id(edge.source_id@) && valid_id(edge.target_id@),
{
    match check_id(edge.source_id.as_str(), "edge source ID") {
        Ok(()) => {},
        Err(e) => {
            return Err(e);
        },
    }
    check_id(edge.target_id.as_str(), "edge target ID")
}

/// The runtime provider's domain, which the graph keeps.
pub const VRCX_DOMAIN_ID: &'static str = "vrcx";

/// Refuses to delete the runtime provider's domain.
pub fn check_deletable_domain(id: &str) -> (r: Result<(), String>)
    ensures
        r is Ok <==> id@ != VRCX_DOMAIN_ID@,
{
    if str_eq(id, VRCX_DOMAIN_ID) {
        return Err(owned("VRCX runtime domain cannot be deleted"));
    }
    Ok(())
}

/// Whether two lists of corpus definitions are equal.
fn definitions_equal(a: &Vec<CorpusDefinition>, b: &Vec<CorpusDefinition>) -> (r: bool)
    ensures
        r == (definitions_view(a@) == definitions_view(b@)),
{
    if a.len() != b.len() {
        assert(definitions_view(a@).len() != definitions_view(b@).len());
        return false;
    }
    let mut i: usize = 0;
    while i < a.len()
        invariant
            0 <= i <= a@.len(),
            a@.len() == b@.len(),
            forall|k: int| 0 <= k < i ==> definitions_view(a@)[k] == definitions_view(b@)[k],
        decreases a@.len() - i,
    {
        if !definition_equal(&a[i], &b[i]) {
            assert(definitions_view(a@)[i as int] != definitions_view(b@)[i as int]);
            return false;
        }
        i = i + 1;
    }
    assert(definitions_view(a@) =~= definitions_view(b@));
    true
}

/// Whether two lists of strings are equal.
fn strings_equal(x: &Vec<String>, y: &Vec<String>) -> (r: bool)
    ensures
        r == (sv(x@) == sv(y@)),
{
    if x.len() != y.len() {
        assert(sv(x@).len() != sv(y@).len());
        return false;
    }
    let mut j: usize = 0;
    while j < x.len()
        invariant
            0 <= j <= x@.len(),
            x@.len() == y@.len(),
            forall|q: int| 0 <= q < j ==> x@[q]@ == y@[q]@,
        decreases x@.len() - j,
    {
        if !str_eq(x[j].as_str(), y[j].as_str()) {
            assert(sv(x@)[j as int] != sv(y@)[j as int]);
            return false;
        }
        j = j + 1;
    }
    assert(sv(x@) =~= sv(y@));
    true
}

/// Whether two term lists are equal.
fn terms_equal(a: &Vec<CorpusTerm>, b: &Vec<CorpusTerm>) -> (r: bool)
    ensures
        r == (terms_view(a@) == terms_view(b@)),
{
    if a.len() != b.len() {
        assert(terms_view(a@).len() != terms_view(b@).len());
        return false;
    }
    let mut i: usize = 0;
    while i < a.len()
        invariant
            0 <= i <= a@.len(),
            a@.len() == b@.len(),
            forall|k: int| 0 <= k < i ==> terms_view(a@)[k] == terms_view(b@)[k],
        decreases a@.len() - i,
    {
        if !strings_equal(&a[i].ordered_values, &b[i].ordered_values) {
            assert(terms_view(a@)[i as int] != terms_view(b@)[i as int]);
            return false;
        }
        i = i + 1;
    }
    assert(terms_view(a@) =~= terms_view(b@));
    true
}

/// Whether the graph already holds a node exactly as given.
pub open spec fn node_saved(g: GraphView, n: NodeView) -> bool {
    exists|k: int| 0 <= k < g.nodes.len() && #[trigger] g.nodes[k] == n
}

/// Tells whether saving `node` would leave the graph as it is, so that the
/// edit can be skipped.
pub fn is_saved_node(snapshot: &GraphSnapshot, node: &GraphNode) -> (r: bool)
    ensures
        r == node_saved(snapshot@, node@),
{
    let mut k: usize = 0;
    while k < snapshot.nodes.len()
        invariant
            0 <= k <= snapshot.nodes@.len(),
            forall|q: int| 0 <= q < k ==> #[trigger] snapshot@.nodes[q] != node@,
        decreases snapshot.nodes@.len() - k,
    {
        let n = &snapshot.nodes[k];
        assert(snapshot@.nodes[k as int] == n@);
        if str_eq(n.id.as_str(), node.id.as_str()) && str_eq(
            n.domain_id.as_str(),
            node.domain_id.as_str(),
        ) && str_eq(n.subdomain.as_str(), node.subdomain.as_str()) && str_eq(
            n.title.as_str(),
            node.title.as_str(),
        ) && n.enabled == node.enabled && n.promptable == node.promptable && n.activation
            == node.activation && n.priority == node.priority && strings_equal(
            &n.values,
            &node.values,
        ) {
            assert(snapshot@.nodes[k as int] == node@);
            return true;
        }
        k = k + 1;
    }
    false
}

/// Whether two corpus definitions are equal.
fn definition_equal(a: &CorpusDefinition, b: &CorpusDefinition) -> (r: bool)
    ensures
        r == (a@ == b@),
{
    str_eq(a.schema.as_str(), b.schema.as_str()) && str_eq(a.id.as_str(), b.id.as_str()) && str_eq(
        a.domain.as_str(),
        b.domain.as_str(),
    ) && str_eq(a.subdomain.as_str(), b.subdomain.as_str()) && str_eq(
        a.title.as_str(),
        b.title.as_str(),
    ) && a.priority == b.priority && a.activation == b.activation && terms_equal(
        &a.triggers,
        &b.triggers,
    ) && terms_equal(&a.trigger_aliases, &b.trigger_aliases) && terms_equal(
        &a.activation_context,
        &b.activation_context,
    ) && terms_equal(&a.terms, &b.terms)
}

/// Whether every string of `a` occurs in `b`.
fn strings_within(a: &Vec<String>, b: &Vec<String>) -> (r: bool)
    ensures
        r == (forall|k: int| 0 <= k < a@.len() ==> sv(b@).contains(#[trigger] sv(a@)[k])),
{
    let mut i: usize = 0;
    while i < a.len()
        invariant
            0 <= i <= a@.len(),
            forall|k: int| 0 <= k < i ==> sv(b@).contains(#[trigger] sv(a@)[k]),
        decreases a@.len() - i,
    {
        if !strings_contain(b, a[i].as_str()) {
            assert(!sv(b@).contains(sv(a@)[i as int]));
            return false;
        }
        i = i + 1;
    }
    true
}

/// The revision after an edit: one more than before exactly when the
/// corpora or the disabled domains changed.
pub open spec fn next_revision_spec(previous: ProjectionView, projection: ProjectionView) -> int {
    if projection.corpora != previous.corpora || projection.disabled_domains
        != previous.disabled_domains {
        previous.revision + 1
    } else {
        previous.revision as int
    }
}

/// Stamps a freshly built projection with the revision that follows
/// `previous`.
pub fn with_next_revision(previous: &GraphProjection, projection: GraphProjection) -> (r: GraphProjection)
    requires
        projection@.corpora != previous@.corpora || projection@.disabled_domains
            != previous@.disabled_domains ==> previous.revision < u64::MAX,
    ensures
        r@.corpora == projection@.corpora,
        r@.disabled_domains == projection@.disabled_domains,
        r@.revision == next_revision_spec(previous@, projection@),
{
    let same_corpora = definitions_equal(&projection.corpora, &previous.corpora);
    let same_domains = strings_within(&projection.disabled_domains, &previous.disabled_domains)
        && strings_within(&previous.disabled_domains, &projection.disabled_domains);
    proof {
        let a = sv(projection.disabled_domains@);
        let b = sv(previous.disabled_domains@);
        if same_domains {
            assert forall|x: Seq<char>| a.to_set().contains(x) <==> b.to_set().contains(x) by {
                if a.contains(x) {
                    let k = choose|k: int| 0 <= k < a.len() && a[k] == x;
                    assert(b.contains(a[k]));
                }
                if b.contains(x) {
                    let k = choose|k: int| 0 <= k < b.len() && b[k] == x;
                    assert(a.contains(b[k]));
                }
            }
            assert(a.to_set() =~= b.to_set());
        } else {
            if a.to_set() == b.to_set() {
                assert forall|k: int| 0 <= k < a.len() implies b.contains(#[trigger] a[k]) by {
                    assert(a.to_set().contains(a[k]));
                }
                assert forall|k: int| 0 <= k < b.len() implies a.contains(#[trigger] b[k]) by {
                    assert(b.to_set().contains(b[k]));
                }
            }
        }
    }
    let changed = !(same_corpora && same_domains);
    let revision = if changed {
        previous.revision + 1
    } else {
        previous.revision
    };
    GraphProjection { corpora: projection.corpora, disabled_domains: projection.disabled_domains, revision }
}

} // verus!
