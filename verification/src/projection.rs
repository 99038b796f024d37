//! Projection of the graph into corpus definitions: promptable nodes become
//! terms, grouped with the same triggers, aliases and context into corpora.

use vstd::prelude::*;

use crate::corpus::{
    CORPUS_SCHEMA, CorpusActivation, CorpusDefinition, CorpusTerm, DefinitionView, check_id,
    check_title, clone_strings, definitions_view, message, terms_view, valid_definition, valid_id,
    valid_term_values, valid_title,
};
use crate::dialogue::opt_view;
use crate::graph::{
    DomainView, EdgeView, GraphDomain, GraphEdge, GraphEdgeKind, GraphNode, GraphProjection,
    GraphSnapshot, GraphView, NodeView, activation_name, activation_name_spec, normalized_spec,
    normalized_values,
};
use crate::language::strings_contain;
use crate::order::{lemma_lt_irreflexive, lemma_lt_transitive, seq_lt, str_less};
use crate::prompt::sv;
use crate::text::{owned, str_eq};

verus! {

broadcast use vstd::string::group_string_axioms;

// ---------------------------------------------------------------------------
// Record checks.
// ---------------------------------------------------------------------------

/// Every domain has a valid identifier and title, and identifiers are
/// distinct.
pub open spec fn domains_ok(ds: Seq<DomainView>) -> bool {
    &&& forall|k: int| #![trigger ds[k]] 0 <= k < ds.len() ==> valid_id(ds[k].id) && valid_title(ds[k].title)
    &&& forall|i: int, j: int| 0 <= i < j < ds.len() ==> (#[trigger] ds[i]).id != (#[trigger] ds[j]).id
}

/// The position of the first domain with this identifier.
pub open spec fn domain_index(ds: Seq<DomainView>, id: Seq<char>, from: int) -> Option<int>
    decreases ds.len() - from,
{
    if from < 0 || from >= ds.len() {
        None
    } else if ds[from].id == id {
        Some(from)
    } else {
        domain_index(ds, id, from + 1)
    }
}

/// Whether a domain with this identifier exists and is enabled.
pub open spec fn domain_on(ds: Seq<DomainView>, id: Seq<char>) -> bool {
    match domain_index(ds, id, 0) {
        Some(i) => ds[i].enabled,
        None => false,
    }
}

/// The identifiers of the disabled domains.
pub open spec fn disabled_set(ds: Seq<DomainView>) -> Set<Seq<char>> {
    Set::new(|id: Seq<char>| exists|k: int| 0 <= k < ds.len() && (#[trigger] ds[k]).id == id && !ds[k].enabled)
}

/// Every node is valid in itself, belongs to an existing domain, and node
/// identifiers are distinct.
pub open spec fn nodes_ok(ns: Seq<NodeView>, ds: Seq<DomainView>) -> bool {
    &&& forall|k: int|
        0 <= k < ns.len() ==> {
            let n = #[trigger] ns[k];
            &&& valid_id(n.id)
            &&& valid_id(n.domain_id)
            &&& valid_id(n.subdomain)
            &&& valid_title(n.title)
            &&& n.activation != CorpusActivation::RuntimeOnly
            &&& valid_term_values(n.values)
            &&& domain_index(ds, n.domain_id, 0) is Some
        }
    &&& forall|i: int, j: int| 0 <= i < j < ns.len() ==> (#[trigger] ns[i]).id != (#[trigger] ns[j]).id
}

/// Every edge names valid identifiers (resolved or not).
pub open spec fn edges_ok(es: Seq<EdgeView>) -> bool {
    forall|k: int| #![trigger es[k]] 0 <= k < es.len() ==> valid_id(es[k].source_id) && valid_id(es[k].target_id)
}

proof fn lemma_domain_index(ds: Seq<DomainView>, id: Seq<char>, from: int)
    requires
        0 <= from,
    ensures
        match domain_index(ds, id, from) {
            Some(i) => from <= i < ds.len() && ds[i].id == id && forall|k: int|
                from <= k < i ==> ds[k].id != id,
            None => forall|k: int| from <= k < ds.len() ==> ds[k].id != id,
        },
    decreases ds.len() - from,
{
    if from < ds.len() && ds[from].id != id {
        lemma_domain_index(ds, id, from + 1);
    }
}

/// The views of a list of domains.
pub open spec fn domains_view(v: Seq<GraphDomain>) -> Seq<DomainView> {
    v.map_values(|d: GraphDomain| d@)
}

/// The views of a list of nodes.
pub open spec fn nodes_view(v: Seq<GraphNode>) -> Seq<NodeView> {
    v.map_values(|n: GraphNode| n@)
}

/// The views of a list of edges.
pub open spec fn edges_view(v: Seq<GraphEdge>) -> Seq<EdgeView> {
    v.map_values(|e: GraphEdge| e@)
}

/// Checks the domains and lists the disabled ones.
fn check_domains(ds: &Vec<GraphDomain>) -> (r: Result<Vec<String>, String>)
    ensures
        match r {
            Ok(dis) => domains_ok(domains_view(ds@)) && sv(dis@).to_set() == disabled_set(
                domains_view(ds@),
            ),
            Err(_) => !domains_ok(domains_view(ds@)),
        },
{
    let ghost dv = domains_view(ds@);
    let mut disabled: Vec<String> = Vec::new();
    let mut k: usize = 0;
    while k < ds.len()
        invariant
            0 <= k <= ds@.len(),
            dv == domains_view(ds@),
            forall|q: int| #![trigger dv[q]] 0 <= q < k ==> valid_id(dv[q].id) && valid_title(dv[q].title),
            forall|i: int, j: int| 0 <= i < j < k ==> (#[trigger] dv[i]).id != (#[trigger] dv[j]).id,
            forall|id: Seq<char>|
                sv(disabled@).contains(id) <==> exists|q: int|
                    0 <= q < k && (#[trigger] dv[q]).id == id && !dv[q].enabled,
        decreases ds@.len() - k,
    {
        assert(dv[k as int] == ds@[k as int]@);
        match check_id(ds[k].id.as_str(), "domain ID") {
            Ok(()) => {},
            Err(e) => {
                assert(!valid_id(dv[k as int].id));
                assert(!domains_ok(dv));
                return Err(e);
            },
        }
        match check_title(ds[k].title.as_str(), "domain title") {
            Ok(()) => {},
            Err(e) => {
                assert(!(valid_id(dv[k as int].id) && valid_title(dv[k as int].title)));
                assert(!domains_ok(dv));
                return Err(e);
            },
        }
        let mut q: usize = 0;
        while q < k
            invariant
                0 <= q <= k < ds@.len(),
                dv == domains_view(ds@),
                forall|z: int| 0 <= z < q ==> dv[z].id != dv[k as int].id,
            decreases k - q,
        {
            assert(dv[q as int] == ds@[q as int]@);
            if str_eq(ds[q].id.as_str(), ds[k].id.as_str()) {
                assert(dv[q as int].id == dv[k as int].id);
                return Err(message(&["duplicate domain ", ds[k].id.as_str()]));
            }
            q = q + 1;
        }
        let ghost before = sv(disabled@);
        if !ds[k].enabled {
            disabled.push(ds[k].id.clone());
            assert(sv(disabled@) =~= before.push(dv[k as int].id));
        }
        assert forall|id: Seq<char>|
            sv(disabled@).contains(id) <==> exists|q: int|
                0 <= q < k + 1 && (#[trigger] dv[q]).id == id && !dv[q].enabled by {
            if sv(disabled@).contains(id) && !before.contains(id) {
                assert(dv[k as int].id == id && !dv[k as int].enabled);
            }
            if exists|q: int| 0 <= q < k + 1 && (#[trigger] dv[q]).id == id && !dv[q].enabled {
                let q = choose|q: int| 0 <= q < k + 1 && (#[trigger] dv[q]).id == id && !dv[q].enabled;
                if q == k {
                    assert(sv(disabled@)[sv(disabled@).len() - 1] == id);
                } else {
                    assert(before.contains(id));
                    let z = choose|z: int| 0 <= z < before.len() && before[z] == id;
                    assert(sv(disabled@)[z] == id);
                }
            }
        }
        k = k + 1;
    }
    assert(sv(disabled@).to_set() =~= disabled_set(dv));
    Ok(disabled)
}

/// Finds the first domain with an identifier.
fn find_domain(ds: &Vec<GraphDomain>, id: &str) -> (r: Option<usize>)
    ensures
        match r {
            Some(i) => i < ds@.len() && domain_index(domains_view(ds@), id@, 0) == Some(i as int),
            None => domain_index(domains_view(ds@), id@, 0) is None,
        },
{
    let ghost dv = domains_view(ds@);
    let mut k: usize = 0;
    while k < ds.len()
        invariant
            0 <= k <= ds@.len(),
            dv == domains_view(ds@),
            domain_index(dv, id@, 0) == domain_index(dv, id@, k as int),
        decreases ds@.len() - k,
    {
        assert(dv[k as int] == ds@[k as int]@);
        if str_eq(ds[k].id.as_str(), id) {
            return Some(k);
        }
        k = k + 1;
    }
    None
}

/// Whether a domain exists and is enabled.
fn domain_enabled(ds: &Vec<GraphDomain>, id: &str) -> (r: bool)
    ensures
        r == domain_on(domains_view(ds@), id@),
{
    match find_domain(ds, id) {
        Some(i) => {
            assert(domains_view(ds@)[i as int] == ds@[i as int]@);
            ds[i].enabled
        },
        None => false,
    }
}

/// Checks the nodes against the domains.
fn check_nodes(ns: &Vec<GraphNode>, ds: &Vec<GraphDomain>) -> (r: Result<(), String>)
    ensures
        r is Ok <==> nodes_ok(nodes_view(ns@), domains_view(ds@)),
{
    let ghost nv = nodes_view(ns@);
    let ghost dv = domains_view(ds@);
    let mut k: usize = 0;
    while k < ns.len()
        invariant
            0 <= k <= ns@.len(),
            nv == nodes_view(ns@),
            dv == domains_view(ds@),
            forall|q: int|
                0 <= q < k ==> {
                    let n = #[trigger] nv[q];
                    &&& valid_id(n.id)
                    &&& valid_id(n.domain_id)
                    &&& valid_id(n.subdomain)
                    &&& valid_title(n.title)
                    &&& n.activation != CorpusActivation::RuntimeOnly
                    &&& valid_term_values(n.values)
                    &&& domain_index(dv, n.domain_id, 0) is Some
                },
            forall|i: int, j: int| 0 <= i < j < k ==> (#[trigger] nv[i]).id != (#[trigger] nv[j]).id,
        decreases ns@.len() - k,
    {
        let node = &ns[k];
        assert(nv[k as int] == node@);
        match crate::graph::validate_node(node) {
            Ok(()) => {},
            Err(e) => {
                return Err(e);
            },
        }
        if find_domain(ds, node.domain_id.as_str()).is_none() {
            return Err(message(&["node ", node.id.as_str(), " has no domain ", node.domain_id.as_str()]));
        }
        let mut q: usize = 0;
        while q < k
            invariant
                0 <= q <= k < ns@.len(),
                nv == nodes_view(ns@),
                forall|z: int| 0 <= z < q ==> nv[z].id != nv[k as int].id,
            decreases k - q,
        {
            assert(nv[q as int] == ns@[q as int]@);
            if str_eq(ns[q].id.as_str(), ns[k].id.as_str()) {
                return Err(message(&["duplicate node ", ns[k].id.as_str()]));
            }
            q = q + 1;
        }
        k = k + 1;
    }
    Ok(())
}

/// Checks the identifiers of every edge.
fn check_edges(es: &Vec<GraphEdge>) -> (r: Result<(), String>)
    ensures
        r is Ok <==> edges_ok(edges_view(es@)),
{
    let ghost ev = edges_view(es@);
    let mut k: usize = 0;
    while k < es.len()
        invariant
            0 <= k <= es@.len(),
            ev == edges_view(es@),
            forall|q: int| #![trigger ev[q]] 0 <= q < k ==> valid_id(ev[q].source_id) && valid_id(ev[q].target_id),
        decreases es@.len() - k,
    {
        assert(ev[k as int] == es@[k as int]@);
        match crate::graph::validate_edge(&es[k]) {
            Ok(()) => {},
            Err(e) => {
                assert(!(valid_id(ev[k as int].source_id) && valid_id(ev[k as int].target_id)));
                assert(!edges_ok(ev));
                return Err(e);
            },
        }
        assert(valid_id(ev[k as int].source_id) && valid_id(ev[k as int].target_id));
        k = k + 1;
    }
    Ok(())
}

// ---------------------------------------------------------------------------
// Inbound sources of a node.
// ---------------------------------------------------------------------------

/// The position of the first node with this identifier.
pub open spec fn node_index(ns: Seq<NodeView>, id: Seq<char>, from: int) -> Option<int>
    decreases ns.len() - from,
{
    if from < 0 || from >= ns.len() {
        None
    } else if ns[from].id == id {
        Some(from)
    } else {
        node_index(ns, id, from + 1)
    }
}

/// Whether an edge takes part in the projection: enabled, both endpoints
/// resolved, and both endpoints and their domains enabled.
pub open spec fn edge_live(g: GraphView, e: EdgeView) -> bool {
    &&& e.enabled
    &&& node_index(g.nodes, e.source_id, 0) matches Some(s)
    &&& node_index(g.nodes, e.target_id, 0) matches Some(t)
    &&& g.nodes[s].enabled
    &&& g.nodes[t].enabled
    &&& domain_on(g.domains, g.nodes[s].domain_id)
    &&& domain_on(g.domains, g.nodes[t].domain_id)
}

/// The role of a live edge's source: a promptable trigger (0), an alias
/// trigger (1) or activation context (2).
pub open spec fn source_role(g: GraphView, e: EdgeView) -> int {
    match e.kind {
        GraphEdgeKind::Trigger => if g.nodes[node_index(g.nodes, e.source_id, 0)->0].promptable {
            0
        } else {
            1
        },
        GraphEdgeKind::Context => 2,
    }
}

/// The sources of the live edges into `target` with a role, in edge order.
pub open spec fn inbound(g: GraphView, es: Seq<EdgeView>, target: Seq<char>, role: int) -> Seq<NodeView>
    decreases es.len(),
{
    if es.len() == 0 {
        Seq::empty()
    } else {
        let head = inbound(g, es.drop_last(), target, role);
        let e = es.last();
        if edge_live(g, e) && e.target_id == target && source_role(g, e) == role {
            head.push(g.nodes[node_index(g.nodes, e.source_id, 0)->0])
        } else {
            head
        }
    }
}

proof fn lemma_node_index(ns: Seq<NodeView>, id: Seq<char>, from: int)
    requires
        0 <= from,
    ensures
        match node_index(ns, id, from) {
            Some(i) => from <= i < ns.len() && ns[i].id == id,
            None => forall|k: int| from <= k < ns.len() ==> ns[k].id != id,
        },
    decreases ns.len() - from,
{
    if from < ns.len() && ns[from].id != id {
        lemma_node_index(ns, id, from + 1);
    }
}

/// Finds the first node with an identifier.
fn find_node(ns: &Vec<GraphNode>, id: &str) -> (r: Option<usize>)
    ensures
        match r {
            Some(i) => i < ns@.len() && node_index(nodes_view(ns@), id@, 0) == Some(i as int),
            None => node_index(nodes_view(ns@), id@, 0) is None,
        },
{
    let ghost nv = nodes_view(ns@);
    let mut k: usize = 0;
    while k < ns.len()
        invariant
            0 <= k <= ns@.len(),
            nv == nodes_view(ns@),
            node_index(nv, id@, 0) == node_index(nv, id@, k as int),
        decreases ns@.len() - k,
    {
        assert(nv[k as int] == ns@[k as int]@);
        if str_eq(ns[k].id.as_str(), id) {
            return Some(k);
        }
        k = k + 1;
    }
    None
}

/// Collects the sources of the live edges into `target` with a role.
fn inbound_exec(g: &GraphSnapshot, target: &str, role: u8) -> (r: Vec<GraphNode>)
    ensures
        nodes_view(r@) == inbound(g@, g@.edges, target@, role as int),
{
    let ghost gv = g@;
    let mut r: Vec<GraphNode> = Vec::new();
    let mut k: usize = 0;
    while k < g.edges.len()
        invariant
            0 <= k <= g.edges@.len(),
            gv == g@,
            nodes_view(r@) == inbound(gv, gv.edges.take(k as int), target@, role as int),
        decreases g.edges@.len() - k,
    {
        assert(gv.edges.take(k + 1).drop_last() =~= gv.edges.take(k as int));
        assert(gv.edges.take(k + 1).last() == g.edges@[k as int]@);
        assert(gv.nodes == nodes_view(g.nodes@));
        assert(gv.domains == domains_view(g.domains@));
        let e = &g.edges[k];
        if e.enabled && str_eq(e.target_id.as_str(), target) {
            match (find_node(&g.nodes, e.source_id.as_str()), find_node(&g.nodes, e.target_id.as_str())) {
                (Some(s), Some(t)) => {
                    let source = &g.nodes[s];
                    let target_node = &g.nodes[t];
                    assert(gv.nodes[s as int] == source@);
                    assert(gv.nodes[t as int] == target_node@);
                    if source.enabled && target_node.enabled && domain_enabled(
                        &g.domains,
                        source.domain_id.as_str(),
                    ) && domain_enabled(&g.domains, target_node.domain_id.as_str()) {
                        let this_role: u8 = match e.kind {
                            GraphEdgeKind::Trigger => if source.promptable {
                                0
                            } else {
                                1
                            },
                            GraphEdgeKind::Context => 2,
                        };
                        if this_role == role {
                            let ghost before = nodes_view(r@);
                            r.push(source.clone());
                            assert(nodes_view(r@) =~= before.push(source@));
                        }
                    }
                },
                _ => {},
            }
        }
        k = k + 1;
    }
    assert(gv.edges.take(gv.edges.len() as int) =~= gv.edges);
    r
}

// ---------------------------------------------------------------------------
// Deduplicated sources.
// ---------------------------------------------------------------------------

/// Source order: by normalized values, then by identifier.
pub open spec fn source_before(a: NodeView, b: NodeView) -> bool {
    let na = normalized_spec(a.values);
    let nb = normalized_spec(b.values);
    seq_lt(na, nb) || (na == nb && seq_lt(a.id, b.id))
}

/// Inserts after every element that `x` does not sort before.
pub open spec fn insert_source(s: Seq<NodeView>, x: NodeView) -> Seq<NodeView>
    decreases s.len(),
{
    if s.len() == 0 {
        seq![x]
    } else if source_before(x, s.last()) {
        insert_source(s.drop_last(), x).push(s.last())
    } else {
        s.push(x)
    }
}

/// Stable sort of sources.
pub open spec fn sort_sources(s: Seq<NodeView>) -> Seq<NodeView>
    decreases s.len(),
{
    if s.len() == 0 {
        s
    } else {
        insert_source(sort_sources(s.drop_last()), s.last())
    }
}

/// Keeps the first of every run of sources with the same normalized values.
pub open spec fn dedup_runs(s: Seq<NodeView>) -> Seq<NodeView>
    decreases s.len(),
{
    if s.len() == 0 {
        s
    } else {
        let r = dedup_runs(s.drop_last());
        if r.len() > 0 && normalized_spec(r.last().values) == normalized_spec(s.last().values) {
            r
        } else {
            r.push(s.last())
        }
    }
}

/// Sources sorted and with repeated values dropped.
pub open spec fn dedup_sources_spec(s: Seq<NodeView>) -> Seq<NodeView> {
    dedup_runs(sort_sources(s))
}

/// Where `insert_source` places `x`.
pub open spec fn source_pos(s: Seq<NodeView>, x: NodeView) -> int
    decreases s.len(),
{
    if s.len() == 0 {
        0
    } else if source_before(x, s.last()) {
        source_pos(s.drop_last(), x)
    } else {
        s.len() as int
    }
}

proof fn lemma_insert_source_pos(s: Seq<NodeView>, x: NodeView)
    ensures
        0 <= source_pos(s, x) <= s.len(),
        insert_source(s, x) == s.insert(source_pos(s, x), x),
    decreases s.len(),
{
    if s.len() == 0 {
        assert(s.insert(0, x) =~= seq![x]);
    } else if source_before(x, s.last()) {
        lemma_insert_source_pos(s.drop_last(), x);
        let p = source_pos(s.drop_last(), x);
        assert(s.drop_last().insert(p, x).push(s.last()) =~= s.insert(p, x));
    } else {
        assert(s.push(x) =~= s.insert(s.len() as int, x));
    }
}

proof fn lemma_source_pos_prefix(s: Seq<NodeView>, x: NodeView, p: int)
    requires
        0 <= p <= s.len(),
        forall|k: int| p <= k < s.len() ==> source_before(x, #[trigger] s[k]),
    ensures
        source_pos(s, x) == source_pos(s.take(p), x),
    decreases s.len() - p,
{
    if p < s.len() {
        assert(s.drop_last() =~= s.take(s.len() - 1));
        assert(source_before(x, s.last()));
        lemma_source_pos_prefix(s.drop_last(), x, p);
        assert(s.drop_last().take(p) =~= s.take(p));
    } else {
        assert(s.take(p) =~= s);
    }
}

/// A node with its normalized values.
struct Keyed {
    key: String,
    node: GraphNode,
}

/// Sorts sources and drops repeated values (see `dedup_sources_spec`).
pub fn dedup_sources(sources: Vec<GraphNode>) -> (r: Vec<GraphNode>)
    ensures
        nodes_view(r@) == dedup_sources_spec(nodes_view(sources@)),
{
    let ghost sv0 = nodes_view(sources@);
    let mut sorted: Vec<Keyed> = Vec::new();
    let mut k: usize = 0;
    while k < sources.len()
        invariant
            0 <= k <= sources@.len(),
            sv0 == nodes_view(sources@),
            sorted@.map_values(|e: Keyed| e.node@) == sort_sources(sv0.take(k as int)),
            forall|q: int| 0 <= q < sorted@.len() ==> (#[trigger] sorted@[q]).key@ == normalized_spec(
                sorted@[q].node@.values,
            ),
        decreases sources@.len() - k,
    {
        assert(sv0.take(k + 1).drop_last() =~= sv0.take(k as int));
        assert(sv0.take(k + 1).last() == sources@[k as int]@);
        let x = sources[k].clone();
        let key = normalized_values(&x.values);
        let ghost s = sorted@.map_values(|e: Keyed| e.node@);
        let mut pos: usize = sorted.len();
        while pos > 0 && (str_less(key.as_str(), sorted[pos - 1].key.as_str()) || (str_eq(
            key.as_str(),
            sorted[pos - 1].key.as_str(),
        ) && str_less(x.id.as_str(), sorted[pos - 1].node.id.as_str())))
            invariant
                0 <= pos <= sorted@.len(),
                s == sorted@.map_values(|e: Keyed| e.node@),
                key@ == normalized_spec(x@.values),
                forall|q: int| 0 <= q < sorted@.len() ==> (#[trigger] sorted@[q]).key@ == normalized_spec(
                    sorted@[q].node@.values,
                ),
                forall|q: int| pos <= q < s.len() ==> source_before(x@, #[trigger] s[q]),
            decreases pos,
        {
            assert(s[pos - 1] == sorted@[pos - 1].node@);
            pos = pos - 1;
        }
        proof {
            lemma_source_pos_prefix(s, x@, pos as int);
            lemma_insert_source_pos(s, x@);
            if pos > 0 {
                assert(s[pos - 1] == sorted@[pos - 1].node@);
                assert(s.take(pos as int).drop_last() =~= s.take(pos - 1));
                assert(s.take(pos as int).last() == s[pos - 1]);
            }
        }
        let ghost xv = x@;
        sorted.insert(pos, Keyed { key, node: x });
        assert(sorted@.map_values(|e: Keyed| e.node@) =~= s.insert(pos as int, xv));
        k = k + 1;
    }
    assert(sv0.take(sv0.len() as int) =~= sv0);
    let ghost ordered = sorted@.map_values(|e: Keyed| e.node@);
    let mut r: Vec<GraphNode> = Vec::new();
    let mut last_key: Option<String> = None;
    let mut m: usize = 0;
    while m < sorted.len()
        invariant
            0 <= m <= sorted@.len(),
            ordered == sorted@.map_values(|e: Keyed| e.node@),
            forall|q: int| 0 <= q < sorted@.len() ==> (#[trigger] sorted@[q]).key@ == normalized_spec(
                sorted@[q].node@.values,
            ),
            nodes_view(r@) == dedup_runs(ordered.take(m as int)),
            match last_key {
                Some(k) => nodes_view(r@).len() > 0 && k@ == normalized_spec(nodes_view(r@).last().values),
                None => nodes_view(r@).len() == 0,
            },
        decreases sorted@.len() - m,
    {
        assert(ordered.take(m + 1).drop_last() =~= ordered.take(m as int));
        assert(ordered.take(m + 1).last() == sorted@[m as int].node@);
        let same = match &last_key {
            Some(k) => str_eq(k.as_str(), sorted[m].key.as_str()),
            None => false,
        };
        if !same {
            let ghost before = nodes_view(r@);
            r.push(sorted[m].node.clone());
            last_key = Some(sorted[m].key.clone());
            assert(nodes_view(r@) =~= before.push(sorted@[m as int].node@));
        }
        m = m + 1;
    }
    assert(ordered.take(ordered.len() as int) =~= ordered);
    r
}

// ---------------------------------------------------------------------------
// Groups.
// ---------------------------------------------------------------------------

/// Whether `.term-` starts at position `p` of an identifier.
pub open spec fn marker_at(id: Seq<char>, p: int) -> bool {
    0 <= p && p + 6 <= id.len() && id.subrange(p, p + 6) == ".term-"@
}

/// The last start of `.term-` at or before `p`.
pub open spec fn last_marker_from(id: Seq<char>, p: int) -> Option<int>
    decreases p + 1,
{
    if p < 0 {
        None
    } else if marker_at(id, p) {
        Some(p)
    } else {
        last_marker_from(id, p - 1)
    }
}

/// The collection of a node: its identifier before the last `.term-`, or
/// the whole identifier.
pub open spec fn collection_spec(id: Seq<char>) -> Seq<char> {
    match last_marker_from(id, id.len() - 6) {
        Some(p) => id.take(p),
        None => id,
    }
}

/// Computes `collection_spec`.
fn collection_of(id: &str) -> (r: String)
    ensures
        r@ == collection_spec(id@),
{
    proof {
        reveal_strlit(".term-");
    }
    let chars = crate::text::chars_of(id);
    let marker = crate::text::chars_of(".term-");
    assert(marker@.len() == 6);
    if chars.len() < 6 {
        assert(last_marker_from(id@, id@.len() - 6) is None);
        return owned(id);
    }
    let n = chars.len();
    let mut p: usize = n - 6;
    loop
        invariant
            n == chars@.len(),
            chars@ == id@,
            marker@ == ".term-"@,
            marker@.len() == 6,
            p + 6 <= chars@.len(),
            last_marker_from(id@, id@.len() - 6) == last_marker_from(id@, p as int),
        decreases p,
    {
        let mut same = true;
        let mut j: usize = 0;
        while j < 6
            invariant
                0 <= j <= 6,
                n == chars@.len(),
                chars@ == id@,
                marker@ == ".term-"@,
                marker@.len() == 6,
                p + 6 <= chars@.len(),
                same == forall|q: int| 0 <= q < j ==> chars@[p + q] == marker@[q],
            decreases 6 - j,
        {
            if chars[p + j] != marker[j] {
                same = false;
            }
            j = j + 1;
        }
        if same {
            assert forall|q: int| 0 <= q < 6 implies id@.subrange(p as int, p + 6)[q] == ".term-"@[q] by {
                assert(chars@[p + q] == marker@[q]);
            }
            assert(id@.subrange(p as int, p + 6) =~= ".term-"@);
            let prefix = crate::text::string_from_chars(&chars.as_slice()[0..p]);
            assert(chars@.subrange(0, p as int) =~= id@.take(p as int));
            return prefix;
        }
        assert(!marker_at(id@, p as int)) by {
            if marker_at(id@, p as int) {
                let q = choose|q: int| 0 <= q < 6 && chars@[p + q] != marker@[q];
                assert(id@.subrange(p as int, p + 6)[q] == id@[p + q]);
            }
        }
        if p == 0 {
            assert(last_marker_from(id@, -1) is None);
            return owned(id);
        }
        p = p - 1;
    }
}

/// A decimal digit.
pub open spec fn digit(d: int) -> char {
    if d == 0 {
        '0'
    } else if d == 1 {
        '1'
    } else if d == 2 {
        '2'
    } else if d == 3 {
        '3'
    } else if d == 4 {
        '4'
    } else if d == 5 {
        '5'
    } else if d == 6 {
        '6'
    } else if d == 7 {
        '7'
    } else if d == 8 {
        '8'
    } else {
        '9'
    }
}

/// The decimal spelling of a natural number.
pub open spec fn decimal(n: nat) -> Seq<char>
    decreases n,
{
    if n < 10 {
        seq![digit(n as int)]
    } else {
        decimal(n / 10).push(digit((n % 10) as int))
    }
}

proof fn lemma_decimal_len(n: nat)
    ensures
        decimal(n).len() >= 1,
        n >= 10 ==> decimal(n).len() >= 2,
    decreases n,
{
    if n >= 10 {
        lemma_decimal_len(n / 10);
    }
}

/// Different numbers are spelled differently.
proof fn lemma_decimal_injective(a: nat, b: nat)
    requires
        decimal(a) == decimal(b),
    ensures
        a == b,
    decreases a,
{
    lemma_decimal_len(a);
    lemma_decimal_len(b);
    if a < 10 && b < 10 {
        assert(decimal(a)[0] == digit(a as int));
        assert(decimal(b)[0] == digit(b as int));
    } else if a < 10 {
        assert(decimal(a).len() == 1);
    } else if b < 10 {
        assert(decimal(b).len() == 1);
    } else {
        let da = decimal(a);
        let db = decimal(b);
        assert(da.drop_last() =~= decimal(a / 10));
        assert(db.drop_last() =~= decimal(b / 10));
        lemma_decimal_injective(a / 10, b / 10);
        assert(da.last() == digit((a % 10) as int));
        assert(db.last() == digit((b % 10) as int));
        assert(a % 10 == b % 10);
        assert(a == 10 * (a / 10) + a % 10);
        assert(b == 10 * (b / 10) + b % 10);
    }
}

fn digit_char(d: u128) -> (r: char)
    requires
        d < 10,
    ensures
        r == digit(d as int),
{
    if d == 0 {
        '0'
    } else if d == 1 {
        '1'
    } else if d == 2 {
        '2'
    } else if d == 3 {
        '3'
    } else if d == 4 {
        '4'
    } else if d == 5 {
        '5'
    } else if d == 6 {
        '6'
    } else if d == 7 {
        '7'
    } else if d == 8 {
        '8'
    } else {
        '9'
    }
}

/// Spells a number in decimal.
pub(crate) fn decimal_string(n: u128) -> (r: String)
    ensures
        r@ == decimal(n as nat),
    decreases n,
{
    if n < 10 {
        let mut r = String::new();
        crate::text::push_char(&mut r, digit_char(n));
        assert(r@ =~= decimal(n as nat));
        r
    } else {
        let mut r = decimal_string(n / 10);
        crate::text::push_char(&mut r, digit_char(n % 10));
        r
    }
}

/// The `k`-th identifier tried for a group preferring `p`: `p`, then
/// `p-group-2`, `p-group-3`, and so on.
pub open spec fn candidate(p: Seq<char>, k: nat) -> Seq<char> {
    if k == 0 {
        p
    } else {
        p + "-group-"@ + decimal(k + 1)
    }
}

proof fn lemma_candidate_injective(p: Seq<char>, a: nat, b: nat)
    requires
        candidate(p, a) == candidate(p, b),
    ensures
        a == b,
{
    reveal_strlit("-group-");
    if a > 0 && b > 0 {
        let x = candidate(p, a);
        let y = candidate(p, b);
        lemma_decimal_len(a + 1);
        lemma_decimal_len(b + 1);
        assert(x.len() == y.len());
        assert(x.subrange((p.len() + 7) as int, x.len() as int) =~= decimal(a + 1));
        assert(y.subrange((p.len() + 7) as int, y.len() as int) =~= decimal(b + 1));
        lemma_decimal_injective(a + 1, b + 1);
    } else if a > 0 {
        lemma_decimal_len(a + 1);
        assert(candidate(p, a).len() > p.len());
    } else if b > 0 {
        lemma_decimal_len(b + 1);
        assert(candidate(p, b).len() > p.len());
    }
}

/// The first candidate from the `k`-th on that is not yet used.
pub open spec fn first_free(p: Seq<char>, used: Seq<Seq<char>>, k: nat) -> Seq<char>
    decreases used.len() + 1 - k,
{
    if k > used.len() || !used.contains(candidate(p, k)) {
        candidate(p, k)
    } else {
        first_free(p, used, k + 1)
    }
}

/// If candidates `0..=k` are all used, there are more than `k` used
/// identifiers.
proof fn lemma_candidates_fit(p: Seq<char>, used: Seq<Seq<char>>, k: nat)
    requires
        forall|j: nat| j <= k ==> used.contains(#[trigger] candidate(p, j)),
    ensures
        k < used.len(),
{
    let s = Seq::new(k + 1, |j: int| candidate(p, j as nat));
    assert(s.no_duplicates()) by {
        assert forall|i: int, j: int| 0 <= i < s.len() && 0 <= j < s.len() && i != j implies s[i]
            != s[j] by {
            if s[i] == s[j] {
                lemma_candidate_injective(p, i as nat, j as nat);
            }
        }
    }
    s.unique_seq_to_set();
    assert(s.to_set().subset_of(used.to_set())) by {
        assert forall|x: Seq<char>| s.to_set().contains(x) implies used.to_set().contains(x) by {
            let i = choose|i: int| 0 <= i < s.len() && s[i] == x;
            assert(used.contains(candidate(p, i as nat)));
        }
    }
    used.lemma_cardinality_of_set();
    vstd::seq_lib::seq_to_set_is_finite(used);
    vstd::set_lib::lemma_len_subset(s.to_set(), used.to_set());
}

/// Picks the first unused identifier for a group preferring `preferred`.
fn free_id(preferred: &String, used: &Vec<String>) -> (r: String)
    ensures
        r@ == first_free(preferred@, sv(used@), 0),
{
    proof {
        reveal_strlit("-group-");
    }
    let ghost u = sv(used@);
    let n = used.len();
    let mut id = preferred.clone();
    let ghost mut k: nat = 0;
    let mut suffix: u128 = 2;
    while strings_contain(used, id.as_str())
        invariant
            u == sv(used@),
            n == u.len(),
            id@ == candidate(preferred@, k),
            suffix == k + 2,
            k <= u.len(),
            first_free(preferred@, u, 0) == first_free(preferred@, u, k),
            forall|j: nat| j < k ==> u.contains(#[trigger] candidate(preferred@, j)),
        decreases u.len() - k,
    {
        proof {
            assert forall|j: nat| j <= k implies u.contains(#[trigger] candidate(preferred@, j)) by {
            }
            lemma_candidates_fit(preferred@, u, k);
        }
        let mut next = preferred.clone();
        crate::text::append_str(&mut next, "-group-");
        let digits = decimal_string(suffix);
        crate::text::append_str(&mut next, digits.as_str());
        id = next;
        proof {
            k = k + 1;
        }
        suffix = suffix + 1;
    }
    id
}

/// A name for the JSON text (`serde_json::to_string`) of a node's grouping
/// key: collection, domain, subdomain, title, priority, activation name and
/// the normalized values of its triggers, aliases and context; nodes whose
/// keys have the same text form one corpus.
pub uninterp spec fn signature_json(
    collection: Seq<char>,
    domain: Seq<char>,
    subdomain: Seq<char>,
    title: Seq<char>,
    priority: i32,
    activation: Seq<char>,
    triggers: Seq<Seq<char>>,
    aliases: Seq<Seq<char>>,
    context: Seq<Seq<char>>,
) -> Option<Seq<char>>;

/// Calls `serde_json::to_string` on a node's grouping key; the result is
/// named by `signature_json`. It is always present: `serde_json` documents
/// failures only for a `Serialize` impl that fails or a map with non-string
/// keys, and a tuple of strings, an integer and lists of strings is
/// neither.
#[verifier::external_body]
fn group_signature(
    collection: &str,
    domain: &str,
    subdomain: &str,
    title: &str,
    priority: i32,
    activation: &str,
    triggers: &Vec<String>,
    aliases: &Vec<String>,
    context: &Vec<String>,
) -> (r: Option<String>)
    ensures
        r is Some,
        opt_view(r) == signature_json(
            collection@,
            domain@,
            subdomain@,
            title@,
            priority,
            activation@,
            sv(triggers@),
            sv(aliases@),
            sv(context@),
        ),
{
    serde_json::to_string(
        &(collection, domain, subdomain, title, priority, activation, triggers, aliases, context),
    ).ok()
}

/// A corpus being assembled from nodes with one grouping key.
pub struct GroupView {
    pub collection: Seq<char>,
    pub first_node: Seq<char>,
    pub signature: Seq<char>,
    pub definition: DefinitionView,
}

struct Group {
    collection: String,
    first_node: String,
    signature: String,
    definition: CorpusDefinition,
}

impl View for Group {
    type V = GroupView;

    closed spec fn view(&self) -> GroupView {
        GroupView {
            collection: self.collection@,
            first_node: self.first_node@,
            signature: self.signature@,
            definition: self.definition@,
        }
    }
}

spec fn groups_view(v: Seq<Group>) -> Seq<GroupView> {
    v.map_values(|g: Group| g@)
}

/// The normalized values of a list of sources.
pub open spec fn norms(s: Seq<NodeView>) -> Seq<Seq<char>> {
    s.map_values(|x: NodeView| normalized_spec(x.values))
}

/// The values of a list of sources, as terms.
pub open spec fn node_terms(s: Seq<NodeView>) -> Seq<Seq<Seq<char>>> {
    s.map_values(|x: NodeView| x.values)
}

/// Deduplicated sources of a node with a role.
pub open spec fn node_sources(g: GraphView, n: NodeView, role: int) -> Seq<NodeView> {
    dedup_sources_spec(inbound(g, g.edges, n.id, role))
}

/// What a node contributes: nothing (`Some(None)`), the corpus it would
/// start (`Some(Some(..))`), or a failure to encode its key (`None`).
pub open spec fn node_proto(g: GraphView, n: NodeView) -> Option<Option<GroupView>> {
    if !(n.enabled && n.promptable && domain_on(g.domains, n.domain_id)) {
        Some(None)
    } else {
        let t = node_sources(g, n, 0);
        let a = node_sources(g, n, 1);
        let c = node_sources(g, n, 2);
        if n.activation == CorpusActivation::OnEvidence && t.len() == 0 && a.len() == 0 {
            Some(None)
        } else {
            let coll = collection_spec(n.id);
            match signature_json(
                coll,
                n.domain_id,
                n.subdomain,
                n.title,
                n.priority,
                activation_name_spec(n.activation),
                norms(t),
                norms(a),
                norms(c),
            ) {
                None => None,
                Some(sig) => Some(
                    Some(
                        GroupView {
                            collection: coll,
                            first_node: n.id,
                            signature: sig,
                            definition: DefinitionView {
                                schema: CORPUS_SCHEMA@,
                                id: Seq::empty(),
                                domain: n.domain_id,
                                subdomain: n.subdomain,
                                title: n.title,
                                priority: n.priority,
                                activation: n.activation,
                                triggers: node_terms(t),
                                trigger_aliases: node_terms(a),
                                activation_context: node_terms(c),
                                terms: seq![n.values],
                            },
                        },
                    ),
                ),
            }
        }
    }
}

/// The position of the first group with a signature.
pub open spec fn group_index(gs: Seq<GroupView>, sig: Seq<char>, from: int) -> Option<int>
    decreases gs.len() - from,
{
    if from < 0 || from >= gs.len() {
        None
    } else if gs[from].signature == sig {
        Some(from)
    } else {
        group_index(gs, sig, from + 1)
    }
}

/// The groups of the first `k` nodes: a node joins the group with its key as
/// one more term, or starts a group.
pub open spec fn groups_upto(g: GraphView, k: int) -> Option<Seq<GroupView>>
    decreases k,
{
    if k <= 0 {
        Some(Seq::empty())
    } else {
        match groups_upto(g, k - 1) {
            None => None,
            Some(gs) => match node_proto(g, g.nodes[k - 1]) {
                None => None,
                Some(None) => Some(gs),
                Some(Some(p)) => match group_index(gs, p.signature, 0) {
                    Some(i) => Some(
                        gs.update(
                            i,
                            GroupView {
                                definition: DefinitionView {
                                    terms: gs[i].definition.terms.push(g.nodes[k - 1].values),
                                    ..gs[i].definition
                                },
                                ..gs[i]
                            },
                        ),
                    ),
                    None => Some(gs.push(p)),
                },
            },
        }
    }
}

proof fn lemma_group_index(gs: Seq<GroupView>, sig: Seq<char>, from: int)
    requires
        0 <= from,
    ensures
        group_index(gs, sig, from) matches Some(i) ==> from <= i < gs.len(),
    decreases gs.len() - from,
{
    if from < gs.len() && gs[from].signature != sig {
        lemma_group_index(gs, sig, from + 1);
    }
}

/// The normalized values of a list of nodes.
fn norms_exec(nodes: &Vec<GraphNode>) -> (r: Vec<String>)
    ensures
        sv(r@) == norms(nodes_view(nodes@)),
{
    let ghost nv = nodes_view(nodes@);
    let mut r: Vec<String> = Vec::new();
    let mut i: usize = 0;
    while i < nodes.len()
        invariant
            0 <= i <= nodes@.len(),
            nv == nodes_view(nodes@),
            sv(r@) == norms(nv.take(i as int)),
        decreases nodes@.len() - i,
    {
        let ghost before = sv(r@);
        r.push(normalized_values(&nodes[i].values));
        assert(sv(r@) =~= before.push(normalized_spec(nv[i as int].values)));
        assert(norms(nv.take(i + 1)) =~= norms(nv.take(i as int)).push(normalized_spec(nv[i as int].values)));
        i = i + 1;
    }
    assert(nv.take(nv.len() as int) =~= nv);
    r
}

/// The values of a list of nodes, as terms.
fn terms_of(nodes: &Vec<GraphNode>) -> (r: Vec<CorpusTerm>)
    ensures
        terms_view(r@) == node_terms(nodes_view(nodes@)),
{
    let ghost nv = nodes_view(nodes@);
    let mut r: Vec<CorpusTerm> = Vec::new();
    let mut i: usize = 0;
    while i < nodes.len()
        invariant
            0 <= i <= nodes@.len(),
            nv == nodes_view(nodes@),
            terms_view(r@) == node_terms(nv.take(i as int)),
        decreases nodes@.len() - i,
    {
        let ghost before = terms_view(r@);
        r.push(CorpusTerm { ordered_values: clone_strings(&nodes[i].values) });
        assert(terms_view(r@) =~= before.push(nv[i as int].values));
        assert(node_terms(nv.take(i + 1)) =~= node_terms(nv.take(i as int)).push(nv[i as int].values));
        i = i + 1;
    }
    assert(nv.take(nv.len() as int) =~= nv);
    r
}

/// Computes what node `k` contributes (see `node_proto`).
fn node_group(g: &GraphSnapshot, k: usize) -> (r: Option<Option<Group>>)
    requires
        k < g.nodes@.len(),
    ensures
        r is Some,
        match r {
            None => node_proto(g@, g@.nodes[k as int]) is None,
            Some(None) => node_proto(g@, g@.nodes[k as int]) == Some(None::<GroupView>),
            Some(Some(p)) => node_proto(g@, g@.nodes[k as int]) == Some(Some(p@)),
        },
{
    let n = &g.nodes[k];
    assert(g@.nodes[k as int] == n@);
    assert(g@.domains == domains_view(g.domains@));
    if !(n.enabled && n.promptable && domain_enabled(&g.domains, n.domain_id.as_str())) {
        return Some(None);
    }
    let t = dedup_sources(inbound_exec(g, n.id.as_str(), 0));
    let a = dedup_sources(inbound_exec(g, n.id.as_str(), 1));
    let c = dedup_sources(inbound_exec(g, n.id.as_str(), 2));
    if n.activation == CorpusActivation::OnEvidence && t.len() == 0 && a.len() == 0 {
        return Some(None);
    }
    let collection = collection_of(n.id.as_str());
    let tn = norms_exec(&t);
    let an = norms_exec(&a);
    let cn = norms_exec(&c);
    let sig = group_signature(
        collection.as_str(),
        n.domain_id.as_str(),
        n.subdomain.as_str(),
        n.title.as_str(),
        n.priority,
        activation_name(n.activation),
        &tn,
        &an,
        &cn,
    );
    match sig {
        None => None,
        Some(signature) => {
            let mut terms: Vec<CorpusTerm> = Vec::new();
            terms.push(CorpusTerm { ordered_values: clone_strings(&n.values) });
            assert(terms_view(terms@) =~= seq![n@.values]);
            let definition = CorpusDefinition {
                schema: owned(CORPUS_SCHEMA),
                id: String::new(),
                domain: n.domain_id.clone(),
                subdomain: n.subdomain.clone(),
                title: n.title.clone(),
                priority: n.priority,
                activation: n.activation,
                triggers: terms_of(&t),
                trigger_aliases: terms_of(&a),
                activation_context: terms_of(&c),
                terms,
            };
            assert(definition@.id =~= Seq::<char>::empty());
            let group = Group { collection, first_node: n.id.clone(), signature, definition };
            Some(Some(group))
        },
    }
}

/// Finds the first group with a signature.
fn find_group(groups: &Vec<Group>, sig: &str) -> (r: Option<usize>)
    ensures
        match r {
            Some(i) => i < groups@.len() && group_index(groups_view(groups@), sig@, 0) == Some(i as int),
            None => group_index(groups_view(groups@), sig@, 0) is None,
        },
{
    let ghost gv = groups_view(groups@);
    let mut i: usize = 0;
    while i < groups.len()
        invariant
            0 <= i <= groups@.len(),
            gv == groups_view(groups@),
            group_index(gv, sig@, 0) == group_index(gv, sig@, i as int),
        decreases groups@.len() - i,
    {
        assert(gv[i as int] == groups@[i as int]@);
        if str_eq(groups[i].signature.as_str(), sig) {
            return Some(i);
        }
        i = i + 1;
    }
    None
}

/// Once grouping fails, it fails for every longer prefix of nodes.
proof fn lemma_groups_fail(g: GraphView, k: int)
    requires
        0 <= k <= g.nodes.len(),
        groups_upto(g, k) is None,
    ensures
        groups_upto(g, g.nodes.len() as int) is None,
    decreases g.nodes.len() - k,
{
    if k < g.nodes.len() {
        assert(groups_upto(g, k + 1) is None);
        lemma_groups_fail(g, k + 1);
    }
}

/// Computes the groups of all nodes (see `groups_upto`).
fn build_groups(g: &GraphSnapshot) -> (r: Option<Vec<Group>>)
    ensures
        r is Some,
        match r {
            None => groups_upto(g@, g@.nodes.len() as int) is None,
            Some(gs) => groups_upto(g@, g@.nodes.len() as int) == Some(groups_view(gs@)),
        },
{
    let mut groups: Vec<Group> = Vec::new();
    assert(groups_view(groups@) =~= Seq::<GroupView>::empty());
    let mut k: usize = 0;
    while k < g.nodes.len()
        invariant
            0 <= k <= g.nodes@.len(),
            g@.nodes.len() == g.nodes@.len(),
            groups_upto(g@, k as int) == Some(groups_view(groups@)),
        decreases g.nodes@.len() - k,
    {
        match node_group(g, k) {
            None => {
                proof {
                    lemma_groups_fail(g@, k as int + 1);
                }
                return None;
            },
            Some(None) => {},
            Some(Some(p)) => {
                let ghost gv = groups_view(groups@);
                let found = find_group(&groups, p.signature.as_str());
                match found {
                    Some(i) => {
                        assert(gv[i as int] == groups@[i as int]@);
                        let values = clone_strings(&g.nodes[k].values);
                        assert(sv(values@) == g@.nodes[k as int].values);
                        let ghost old_group = gv[i as int];
                        let mut updated = Group {
                            collection: groups[i].collection.clone(),
                            first_node: groups[i].first_node.clone(),
                            signature: groups[i].signature.clone(),
                            definition: groups[i].definition.clone(),
                        };
                        assert(updated@ == old_group);
                        let ghost before_terms = updated.definition.terms@;
                        updated.definition.terms.push(CorpusTerm { ordered_values: values });
                        assert(terms_view(updated.definition.terms@) =~= terms_view(before_terms).push(
                            g@.nodes[k as int].values,
                        ));
                        assert(updated@.definition =~= (DefinitionView {
                            terms: old_group.definition.terms.push(g@.nodes[k as int].values),
                            ..old_group.definition
                        }));
                        assert(updated@ == (GroupView {
                            definition: DefinitionView {
                                terms: old_group.definition.terms.push(g@.nodes[k as int].values),
                                ..old_group.definition
                            },
                            ..old_group
                        }));
                        let ghost uv = updated@;
                        groups.set(i, updated);
                        assert(groups_view(groups@) =~= gv.update(i as int, uv));
                    },
                    None => {
                        let ghost pv = p@;
                        groups.push(p);
                        assert(groups_view(groups@) =~= gv.push(pv));
                    },
                }
            },
        }
        k = k + 1;
    }
    Some(groups)
}

// ---------------------------------------------------------------------------
// Corpus identifiers and the projection.
// ---------------------------------------------------------------------------

/// The first largest group of collection `c` among the first `k` groups,
/// with its size.
pub open spec fn best_upto(gs: Seq<GroupView>, c: Seq<char>, k: int) -> Option<(int, nat)>
    decreases k,
{
    if k <= 0 {
        None
    } else {
        let b = best_upto(gs, c, k - 1);
        if gs[k - 1].collection != c {
            b
        } else {
            let cur = match b {
                Some(x) => x,
                None => (k - 1, 0nat),
            };
            let size = gs[k - 1].definition.terms.len();
            if size > cur.1 {
                Some((k - 1, size))
            } else {
                Some(cur)
            }
        }
    }
}

/// The identifier a group prefers: its collection when it is the
/// collection's largest group, else its first node's identifier.
pub open spec fn preferred_id(gs: Seq<GroupView>, i: int) -> Seq<char> {
    match best_upto(gs, gs[i].collection, gs.len() as int) {
        Some((j, _)) => if j == i {
            gs[i].collection
        } else {
            gs[i].first_node
        },
        None => gs[i].first_node,
    }
}

/// The identifiers of the first `k` groups: each the first unused candidate
/// of its preferred identifier.
pub open spec fn assigned_ids(gs: Seq<GroupView>, k: int) -> Seq<Seq<char>>
    decreases k,
{
    if k <= 0 {
        Seq::empty()
    } else {
        let used = assigned_ids(gs, k - 1);
        used.push(first_free(preferred_id(gs, k - 1), used, 0))
    }
}

/// The groups' definitions with their identifiers.
pub open spec fn with_ids(gs: Seq<GroupView>, ids: Seq<Seq<char>>) -> Seq<DefinitionView> {
    Seq::new(gs.len(), |i: int| DefinitionView { id: ids[i], ..gs[i].definition })
}

/// The projection of a graph: its corpora and disabled domains, or nothing
/// when a record is invalid, a key cannot be encoded, or a corpus is
/// invalid.
pub open spec fn project_spec(g: GraphView) -> Option<(Seq<DefinitionView>, Set<Seq<char>>)> {
    if !(domains_ok(g.domains) && nodes_ok(g.nodes, g.domains) && edges_ok(g.edges)) {
        None
    } else {
        match groups_upto(g, g.nodes.len() as int) {
            None => None,
            Some(gs) => {
                let defs = with_ids(gs, assigned_ids(gs, gs.len() as int));
                if forall|k: int| 0 <= k < defs.len() ==> valid_definition(#[trigger] defs[k]) {
                    Some((defs, disabled_set(g.domains)))
                } else {
                    None
                }
            },
        }
    }
}

proof fn lemma_assigned_prefix(gs: Seq<GroupView>, k: int, m: int)
    requires
        0 <= k <= m,
    ensures
        assigned_ids(gs, m).len() == m,
        assigned_ids(gs, k) == assigned_ids(gs, m).take(k),
    decreases m,
{
    if m > 0 {
        if k < m {
            lemma_assigned_prefix(gs, k, m - 1);
            assert(assigned_ids(gs, m - 1) =~= assigned_ids(gs, m).take(m - 1));
            assert(assigned_ids(gs, k) =~= assigned_ids(gs, m).take(k));
        } else {
            lemma_assigned_prefix(gs, k - 1, m - 1);
            assert(assigned_ids(gs, m).take(k) =~= assigned_ids(gs, m));
        }
    }
}

/// The group that `best_upto` picks lies among the first `k` groups, and
/// its size is its number of terms.
proof fn lemma_best_upto(gs: Seq<GroupView>, c: Seq<char>, k: int)
    ensures
        best_upto(gs, c, k) matches Some((j, s)) ==> 0 <= j < k && gs[j].collection == c
            && s == gs[j].definition.terms.len(),
    decreases k,
{
    if k > 0 {
        lemma_best_upto(gs, c, k - 1);
    }
}

/// Computes `best_upto` over all groups.
fn best_group(groups: &Vec<Group>, c: &str) -> (r: Option<usize>)
    ensures
        match best_upto(groups_view(groups@), c@, groups@.len() as int) {
            Some((j, _)) => r matches Some(x) && x == j,
            None => r is None,
        },
{
    let ghost gv = groups_view(groups@);
    let mut best: Option<(usize, usize)> = None;
    let mut k: usize = 0;
    while k < groups.len()
        invariant
            0 <= k <= groups@.len(),
            gv == groups_view(groups@),
            match best_upto(gv, c@, k as int) {
                Some((j, size)) => best matches Some((bj, bs)) && bj == j && bs == size,
                None => best is None,
            },
        decreases groups@.len() - k,
    {
        assert(gv[k as int] == groups@[k as int]@);
        if str_eq(groups[k].collection.as_str(), c) {
            let cur = match best {
                Some(x) => x,
                None => (k, 0),
            };
            let size = groups[k].definition.terms.len();
            assert(size == gv[k as int].definition.terms.len());
            if size > cur.1 {
                best = Some((k, size));
            } else {
                best = Some(cur);
            }
        }
        k = k + 1;
    }
    match best {
        Some((j, _)) => Some(j),
        None => None,
    }
}

/// Projects the graph into corpus definitions (see `project_spec`).
pub fn project(snapshot: &GraphSnapshot) -> (r: Result<GraphProjection, String>)
    ensures
        domains_ok(snapshot@.domains) && nodes_ok(snapshot@.nodes, snapshot@.domains) && edges_ok(
            snapshot@.edges,
        ) ==> groups_upto(snapshot@, snapshot@.nodes.len() as int) is Some,
        match project_spec(snapshot@) {
            Some((defs, dis)) => r matches Ok(p) && p@.corpora == defs && p@.disabled_domains == dis
                && p@.revision == 0,
            None => r is Err,
        },
{
    assert(snapshot@.domains == domains_view(snapshot.domains@));
    assert(snapshot@.nodes == nodes_view(snapshot.nodes@));
    assert(snapshot@.edges == edges_view(snapshot.edges@));
    let disabled = match check_domains(&snapshot.domains) {
        Ok(d) => d,
        Err(e) => {
            return Err(e);
        },
    };
    match check_nodes(&snapshot.nodes, &snapshot.domains) {
        Ok(()) => {},
        Err(e) => {
            return Err(e);
        },
    }
    match check_edges(&snapshot.edges) {
        Ok(()) => {},
        Err(e) => {
            return Err(e);
        },
    }
    let groups = match build_groups(snapshot) {
        Some(gs) => gs,
        None => {
            return Err(owned("cannot group graph node"));
        },
    };
    let ghost gv = groups_view(groups@);
    let ghost ids = assigned_ids(gv, gv.len() as int);
    let ghost defs = with_ids(gv, ids);
    let mut used: Vec<String> = Vec::new();
    let mut corpora: Vec<CorpusDefinition> = Vec::new();
    let mut i: usize = 0;
    while i < groups.len()
        invariant
            0 <= i <= groups@.len(),
            gv == groups_view(groups@),
            ids == assigned_ids(gv, gv.len() as int),
            defs == with_ids(gv, ids),
            sv(used@) == assigned_ids(gv, i as int),
            definitions_view(corpora@) == defs.take(i as int),
            forall|k: int| 0 <= k < i ==> valid_definition(#[trigger] defs[k]),
            domains_ok(snapshot@.domains),
            nodes_ok(snapshot@.nodes, snapshot@.domains),
            edges_ok(snapshot@.edges),
            groups_upto(snapshot@, snapshot@.nodes.len() as int) == Some(gv),
        decreases groups@.len() - i,
    {
        proof {
            lemma_assigned_prefix(gv, i as int, gv.len() as int);
            lemma_assigned_prefix(gv, i + 1, gv.len() as int);
        }
        assert(gv[i as int] == groups@[i as int]@);
        let preferred = match best_group(&groups, groups[i].collection.as_str()) {
            Some(j) => if j == i {
                groups[i].collection.clone()
            } else {
                groups[i].first_node.clone()
            },
            None => groups[i].first_node.clone(),
        };
        assert(preferred@ == preferred_id(gv, i as int));
        let id = free_id(&preferred, &used);
        assert(assigned_ids(gv, i + 1) == assigned_ids(gv, i as int).push(
            first_free(preferred_id(gv, i as int), assigned_ids(gv, i as int), 0),
        ));
        assert(assigned_ids(gv, i + 1)[i as int] == ids[i as int]);
        assert(id@ == ids[i as int]);
        let mut definition = groups[i].definition.clone();
        definition.id = id.clone();
        assert(definition@ == defs[i as int]);
        match definition.validate() {
            Ok(()) => {},
            Err(e) => {
                assert(!valid_definition(defs[i as int]));
                assert(project_spec(snapshot@) is None);
                return Err(e);
            },
        }
        let ghost ub = sv(used@);
        used.push(id);
        assert(sv(used@) =~= ub.push(ids[i as int]));
        let ghost cb = definitions_view(corpora@);
        corpora.push(definition);
        assert(definitions_view(corpora@) =~= cb.push(defs[i as int]));
        assert(defs.take(i + 1) =~= defs.take(i as int).push(defs[i as int]));
        i = i + 1;
    }
    assert(defs.take(defs.len() as int) =~= defs);
    Ok(GraphProjection { corpora, disabled_domains: disabled, revision: 0 })
}

// ---------------------------------------------------------------------------
// Only live records matter.
// ---------------------------------------------------------------------------

/// Whether a node can take part in the projection: it is enabled and its
/// domain exists and is enabled.
pub open spec fn node_active(g: GraphView, n: NodeView) -> bool {
    n.enabled && domain_on(g.domains, n.domain_id)
}

/// The active nodes among `ns`, in order.
pub open spec fn active_nodes(g: GraphView, ns: Seq<NodeView>) -> Seq<NodeView>
    decreases ns.len(),
{
    if ns.len() == 0 {
        ns
    } else {
        let head = active_nodes(g, ns.drop_last());
        if node_active(g, ns.last()) {
            head.push(ns.last())
        } else {
            head
        }
    }
}

/// The live edges among `es`, in order.
pub open spec fn live_edges(g: GraphView, es: Seq<EdgeView>) -> Seq<EdgeView>
    decreases es.len(),
{
    if es.len() == 0 {
        es
    } else {
        let head = live_edges(g, es.drop_last());
        if edge_live(g, es.last()) {
            head.push(es.last())
        } else {
            head
        }
    }
}

/// The graph without its disabled nodes, the nodes of disabled or missing
/// domains, and the edges that take no part.
pub open spec fn effective_graph(g: GraphView) -> GraphView {
    GraphView { domains: g.domains, nodes: active_nodes(g, g.nodes), edges: live_edges(g, g.edges) }
}

/// Whether node identifiers are distinct.
pub open spec fn unique_node_ids(ns: Seq<NodeView>) -> bool {
    forall|i: int, j: int| 0 <= i < j < ns.len() ==> (#[trigger] ns[i]).id != (#[trigger] ns[j]).id
}

proof fn lemma_active_nodes(g: GraphView, ns: Seq<NodeView>)
    ensures
        active_nodes(g, ns).len() <= ns.len(),
        forall|j: int|
            0 <= j < active_nodes(g, ns).len() ==> ns.contains(#[trigger] active_nodes(g, ns)[j])
                && node_active(g, active_nodes(g, ns)[j]),
        forall|i: int|
            0 <= i < ns.len() && node_active(g, #[trigger] ns[i]) ==> active_nodes(g, ns).contains(
                ns[i],
            ),
        unique_node_ids(ns) ==> unique_node_ids(active_nodes(g, ns)),
    decreases ns.len(),
{
    if ns.len() > 0 {
        let d = ns.drop_last();
        lemma_active_nodes(g, d);
        let h = active_nodes(g, d);
        let a = active_nodes(g, ns);
        assert forall|j: int| 0 <= j < a.len() implies ns.contains(#[trigger] a[j]) && node_active(
            g,
            a[j],
        ) by {
            if j < h.len() {
                assert(a[j] == h[j]);
                assert(d.contains(h[j]));
                let i = choose|i: int| 0 <= i < d.len() && d[i] == h[j];
                assert(ns[i] == d[i]);
            } else {
                assert(a[j] == ns[ns.len() - 1]);
            }
        }
        assert forall|i: int| 0 <= i < ns.len() && node_active(g, #[trigger] ns[i]) implies a.contains(
            ns[i],
        ) by {
            if i < ns.len() - 1 {
                assert(d[i] == ns[i]);
                assert(h.contains(ns[i]));
                let j = choose|j: int| 0 <= j < h.len() && h[j] == ns[i];
                assert(a[j] == h[j]);
            } else {
                assert(a[a.len() - 1] == ns[i]);
            }
        }
        if unique_node_ids(ns) {
            assert(unique_node_ids(d)) by {
                assert forall|i: int, j: int| 0 <= i < j < d.len() implies (#[trigger] d[i]).id != (
                #[trigger] d[j]).id by {
                    assert(d[i] == ns[i] && d[j] == ns[j]);
                }
            }
            assert forall|i: int, j: int| 0 <= i < j < a.len() implies (#[trigger] a[i]).id != (
            #[trigger] a[j]).id by {
                if j < h.len() {
                    assert(a[i] == h[i] && a[j] == h[j]);
                } else {
                    assert(a[i] == h[i]);
                    assert(d.contains(h[i]));
                    let q = choose|q: int| 0 <= q < d.len() && d[q] == h[i];
                    assert(a[j] == ns[ns.len() - 1]);
                    assert(ns[q].id != ns[ns.len() - 1].id);
                }
            }
        }
    }
}

/// With distinct identifiers, a lookup finds the one node of that
/// identifier.
proof fn lemma_unique_index(ns: Seq<NodeView>, i: int)
    requires
        unique_node_ids(ns),
        0 <= i < ns.len(),
    ensures
        node_index(ns, ns[i].id, 0) == Some(i),
{
    lemma_node_index(ns, ns[i].id, 0);
    if let Some(k) = node_index(ns, ns[i].id, 0) {
        if k != i {
            if k < i {
                assert(ns[k].id != ns[i].id);
            } else {
                assert(ns[i].id != ns[k].id);
            }
        }
    }
}

/// A live edge resolves in the effective graph to the same endpoints, so
/// it is live there too with the same source role.
proof fn lemma_live_edge_survives(g: GraphView, e: EdgeView)
    requires
        unique_node_ids(g.nodes),
        edge_live(g, e),
    ensures
        edge_live(effective_graph(g), e),
        node_index(effective_graph(g).nodes, e.source_id, 0) matches Some(j)
            && effective_graph(g).nodes[j] == g.nodes[node_index(g.nodes, e.source_id, 0)->0],
        source_role(effective_graph(g), e) == source_role(g, e),
{
    let a = active_nodes(g, g.nodes);
    lemma_active_nodes(g, g.nodes);
    let s = node_index(g.nodes, e.source_id, 0)->0;
    let t = node_index(g.nodes, e.target_id, 0)->0;
    lemma_node_index(g.nodes, e.source_id, 0);
    lemma_node_index(g.nodes, e.target_id, 0);
    assert(node_active(g, g.nodes[s]));
    assert(node_active(g, g.nodes[t]));
    assert(a.contains(g.nodes[s]));
    assert(a.contains(g.nodes[t]));
    let js = choose|j: int| 0 <= j < a.len() && a[j] == g.nodes[s];
    let jt = choose|j: int| 0 <= j < a.len() && a[j] == g.nodes[t];
    lemma_unique_index(a, js);
    lemma_unique_index(a, jt);
}

/// Edges that take no part can be dropped from the edges an inbound list
/// is read from.
proof fn lemma_inbound_live(g: GraphView, es: Seq<EdgeView>, target: Seq<char>, role: int)
    ensures
        inbound(g, live_edges(g, es), target, role) == inbound(g, es, target, role),
    decreases es.len(),
{
    if es.len() > 0 {
        lemma_inbound_live(g, es.drop_last(), target, role);
        if edge_live(g, es.last()) {
            assert(live_edges(g, es).drop_last() =~= live_edges(g, es.drop_last()));
        }
    }
}

proof fn lemma_live_edges_live(g: GraphView, es: Seq<EdgeView>)
    ensures
        forall|k: int| 0 <= k < live_edges(g, es).len() ==> edge_live(g, #[trigger] live_edges(g, es)[k]),
        forall|k: int|
            0 <= k < live_edges(g, es).len() ==> #[trigger] es.contains(live_edges(g, es)[k]),
    decreases es.len(),
{
    if es.len() > 0 {
        let d = es.drop_last();
        lemma_live_edges_live(g, d);
        let l = live_edges(g, es);
        let h = live_edges(g, d);
        assert forall|k: int| 0 <= k < l.len() implies edge_live(g, #[trigger] l[k]) && es.contains(
            l[k],
        ) by {
            if k < h.len() {
                assert(l[k] == h[k]);
                assert(d.contains(h[k]));
                let q = choose|q: int| 0 <= q < d.len() && d[q] == h[k];
                assert(es[q] == d[q]);
            } else {
                assert(l[k] == es[es.len() - 1]);
            }
        }
    }
}

/// Over live edges, the effective graph yields the same inbound sources.
proof fn lemma_inbound_effective(g: GraphView, es: Seq<EdgeView>, target: Seq<char>, role: int)
    requires
        unique_node_ids(g.nodes),
        forall|k: int| 0 <= k < es.len() ==> edge_live(g, #[trigger] es[k]),
    ensures
        inbound(effective_graph(g), es, target, role) == inbound(g, es, target, role),
    decreases es.len(),
{
    if es.len() > 0 {
        assert forall|k: int| 0 <= k < es.drop_last().len() implies edge_live(
            g,
            #[trigger] es.drop_last()[k],
        ) by {
            assert(es.drop_last()[k] == es[k]);
        }
        lemma_inbound_effective(g, es.drop_last(), target, role);
        assert(edge_live(g, es[es.len() - 1]));
        lemma_live_edge_survives(g, es.last());
    }
}

/// An active node contributes the same in the effective graph.
proof fn lemma_node_proto_effective(g: GraphView, n: NodeView)
    requires
        unique_node_ids(g.nodes),
    ensures
        node_proto(effective_graph(g), n) == node_proto(g, n),
{
    let e = effective_graph(g);
    lemma_live_edges_live(g, g.edges);
    assert forall|role: int| inbound(e, e.edges, n.id, role) == inbound(g, g.edges, n.id, role) by {
        lemma_inbound_effective(g, live_edges(g, g.edges), n.id, role);
        lemma_inbound_live(g, g.edges, n.id, role);
    }
    assert(node_sources(e, n, 0) == node_sources(g, n, 0));
    assert(node_sources(e, n, 1) == node_sources(g, n, 1));
    assert(node_sources(e, n, 2) == node_sources(g, n, 2));
}

/// The active nodes of a prefix are a prefix of the active nodes.
proof fn lemma_active_prefix(g: GraphView, ns: Seq<NodeView>, k: int)
    requires
        0 <= k <= ns.len(),
    ensures
        active_nodes(g, ns.take(k)).len() <= active_nodes(g, ns).len(),
        active_nodes(g, ns).take(active_nodes(g, ns.take(k)).len() as int) == active_nodes(
            g,
            ns.take(k),
        ),
    decreases ns.len() - k,
{
    if k < ns.len() {
        lemma_active_prefix(g, ns, k + 1);
        assert(ns.take(k + 1).drop_last() =~= ns.take(k));
        let a = active_nodes(g, ns);
        let p = active_nodes(g, ns.take(k + 1));
        let q = active_nodes(g, ns.take(k));
        if node_active(g, ns[k]) {
            assert(p == q.push(ns[k]));
            assert(a.take(q.len() as int) =~= p.take(q.len() as int));
            assert(p.take(q.len() as int) =~= q);
        } else {
            assert(p == q);
        }
    } else {
        assert(ns.take(k) =~= ns);
        assert(active_nodes(g, ns).take(active_nodes(g, ns).len() as int) =~= active_nodes(g, ns));
    }
}

/// Grouping the effective graph's nodes gives the same groups.
proof fn lemma_groups_effective(g: GraphView, k: int)
    requires
        unique_node_ids(g.nodes),
        0 <= k <= g.nodes.len(),
    ensures
        groups_upto(effective_graph(g), active_nodes(g, g.nodes.take(k)).len() as int) == groups_upto(
            g,
            k,
        ),
    decreases k,
{
    let e = effective_graph(g);
    if k == 0 {
        assert(g.nodes.take(0) =~= Seq::<NodeView>::empty());
    } else {
        lemma_groups_effective(g, k - 1);
        lemma_active_prefix(g, g.nodes, k);
        assert(g.nodes.take(k).drop_last() =~= g.nodes.take(k - 1));
        assert(g.nodes.take(k).last() == g.nodes[k - 1]);
        let q = active_nodes(g, g.nodes.take(k - 1));
        let n = g.nodes[k - 1];
        if node_active(g, n) {
            assert(active_nodes(g, g.nodes.take(k)) == q.push(n));
            assert(e.nodes.take(q.len() + 1 as int) == q.push(n));
            assert(e.nodes[q.len() as int] == q.push(n)[q.len() as int]);
            lemma_node_proto_effective(g, n);
        } else {
            assert(node_proto(g, n) == Some(None::<GroupView>));
        }
    }
}

/// Disabled nodes, the nodes of disabled domains, and the edges that are
/// disabled, dangling or touch such a node have no effect: without them
/// the graph projects to the same corpora and disabled domains.
pub proof fn lemma_only_live_records_matter(g: GraphView)
    requires
        nodes_ok(g.nodes, g.domains),
        edges_ok(g.edges),
    ensures
        project_spec(effective_graph(g)) == project_spec(g),
{
    let e = effective_graph(g);
    assert(unique_node_ids(g.nodes));
    lemma_active_nodes(g, g.nodes);
    lemma_live_edges_live(g, g.edges);
    assert(nodes_ok(e.nodes, e.domains)) by {
        assert forall|k: int| 0 <= k < e.nodes.len() implies {
            let n = #[trigger] e.nodes[k];
            &&& valid_id(n.id)
            &&& valid_id(n.domain_id)
            &&& valid_id(n.subdomain)
            &&& valid_title(n.title)
            &&& n.activation != CorpusActivation::RuntimeOnly
            &&& valid_term_values(n.values)
            &&& domain_index(e.domains, n.domain_id, 0) is Some
        } by {
            assert(g.nodes.contains(e.nodes[k]));
            let i = choose|i: int| 0 <= i < g.nodes.len() && g.nodes[i] == e.nodes[k];
            assert(g.nodes[i] == e.nodes[k]);
        }
    }
    assert(edges_ok(e.edges)) by {
        assert forall|k: int| 0 <= k < e.edges.len() implies valid_id(
            #[trigger] e.edges[k].source_id,
        ) && valid_id(e.edges[k].target_id) by {
            assert(g.edges.contains(e.edges[k]));
            let q = choose|q: int| 0 <= q < g.edges.len() && g.edges[q] == e.edges[k];
            assert(g.edges[q] == e.edges[k]);
        }
    }
    lemma_groups_effective(g, g.nodes.len() as int);
    assert(g.nodes.take(g.nodes.len() as int) =~= g.nodes);
}

// ---------------------------------------------------------------------------
// What a projection guarantees.
// ---------------------------------------------------------------------------

/// The first unused candidate is unused, when the earlier candidates are
/// all used.
proof fn lemma_first_free_unused(p: Seq<char>, used: Seq<Seq<char>>, k: nat)
    requires
        forall|j: nat| j < k ==> used.contains(#[trigger] candidate(p, j)),
    ensures
        !used.contains(first_free(p, used, k)),
    decreases used.len() + 1 - k,
{
    if k > used.len() {
        if used.contains(candidate(p, k)) {
            assert forall|j: nat| j <= k implies used.contains(#[trigger] candidate(p, j)) by {}
            lemma_candidates_fit(p, used, k);
        }
    } else if used.contains(candidate(p, k)) {
        lemma_first_free_unused(p, used, k + 1);
    }
}

/// The identifiers given to the groups are distinct.
proof fn lemma_assigned_distinct(gs: Seq<GroupView>, k: int)
    requires
        0 <= k,
    ensures
        forall|i: int, j: int|
            0 <= i < j < assigned_ids(gs, k).len() ==> assigned_ids(gs, k)[i] != assigned_ids(gs, k)[j],
    decreases k,
{
    if k > 0 {
        lemma_assigned_distinct(gs, k - 1);
        lemma_assigned_prefix(gs, k - 1, k);
        let used = assigned_ids(gs, k - 1);
        let ids = assigned_ids(gs, k);
        lemma_first_free_unused(preferred_id(gs, k - 1), used, 0);
        assert forall|i: int, j: int| 0 <= i < j < ids.len() implies ids[i] != ids[j] by {
            if j == ids.len() - 1 {
                assert(ids[i] == used[i]);
                assert(used.contains(used[i]));
            } else {
                assert(ids[i] == used[i] && ids[j] == used[j]);
            }
        }
    }
}

/// Whether `values` are the values of an enabled, promptable node of an
/// enabled domain which, when it is activated on evidence, has a live trigger
/// or alias edge.
pub open spec fn from_promptable_node(g: GraphView, values: Seq<Seq<char>>) -> bool {
    exists|n: int|
        0 <= n < g.nodes.len() && (#[trigger] g.nodes[n]).values == values && g.nodes[n].enabled
            && g.nodes[n].promptable && domain_on(g.domains, g.nodes[n].domain_id) && (
        g.nodes[n].activation == CorpusActivation::OnEvidence ==> node_sources(g, g.nodes[n], 0).len()
            > 0 || node_sources(g, g.nodes[n], 1).len() > 0)
}

proof fn lemma_group_terms(g: GraphView, k: int)
    requires
        0 <= k <= g.nodes.len(),
    ensures
        groups_upto(g, k) matches Some(gs) ==> forall|i: int, t: int|
            0 <= i < gs.len() && 0 <= t < gs[i].definition.terms.len() ==> from_promptable_node(
                g,
                #[trigger] gs[i].definition.terms[t],
            ),
    decreases k,
{
    if k > 0 {
        lemma_group_terms(g, k - 1);
        let n = g.nodes[k - 1];
        if let Some(gs) = groups_upto(g, k - 1) {
            if let Some(Some(p)) = node_proto(g, n) {
                assert(from_promptable_node(g, n.values)) by {
                    assert(g.nodes[k - 1] == n);
                }
                let r = groups_upto(g, k)->0;
                match group_index(gs, p.signature, 0) {
                    Some(i) => {
                        lemma_group_index(gs, p.signature, 0);
                        let upd = GroupView {
                            definition: DefinitionView {
                                terms: gs[i].definition.terms.push(n.values),
                                ..gs[i].definition
                            },
                            ..gs[i]
                        };
                        assert(r == gs.update(i, upd));
                        assert forall|q: int, t: int|
                            0 <= q < r.len() && 0 <= t < r[q].definition.terms.len() implies from_promptable_node(
                            g,
                            #[trigger] r[q].definition.terms[t],
                        ) by {
                            if q == i {
                                if t < gs[i].definition.terms.len() {
                                    assert(r[q].definition.terms[t] == gs[i].definition.terms[t]);
                                    assert(from_promptable_node(g, gs[i].definition.terms[t]));
                                } else {
                                    assert(r[q].definition.terms[t] == n.values);
                                }
                            } else {
                                assert(r[q] == gs[q]);
                            }
                        }
                    },
                    None => {
                        assert(r == gs.push(p));
                        assert forall|q: int, t: int|
                            0 <= q < r.len() && 0 <= t < r[q].definition.terms.len() implies from_promptable_node(
                            g,
                            #[trigger] r[q].definition.terms[t],
                        ) by {
                            if q < gs.len() {
                                assert(r[q] == gs[q]);
                                assert(from_promptable_node(g, gs[q].definition.terms[t]));
                            } else {
                                assert(r[q] == p);
                                assert(p.definition.terms == seq![n.values]);
                                assert(r[q].definition.terms[t] == n.values);
                            }
                        }
                    },
                }
            }
        }
    }
}

proof fn lemma_group_domains(g: GraphView, k: int)
    requires
        0 <= k <= g.nodes.len(),
    ensures
        groups_upto(g, k) matches Some(gs) ==> forall|i: int|
            0 <= i < gs.len() ==> domain_on(g.domains, (#[trigger] gs[i]).definition.domain),
    decreases k,
{
    if k > 0 {
        lemma_group_domains(g, k - 1);
        let n = g.nodes[k - 1];
        if let Some(gs) = groups_upto(g, k - 1) {
            if let Some(Some(p)) = node_proto(g, n) {
                let r = groups_upto(g, k)->0;
                match group_index(gs, p.signature, 0) {
                    Some(i) => {
                        lemma_group_index(gs, p.signature, 0);
                        assert forall|q: int| 0 <= q < r.len() implies domain_on(
                            g.domains,
                            (#[trigger] r[q]).definition.domain,
                        ) by {
                            assert(r[q].definition.domain == gs[q].definition.domain);
                        }
                    },
                    None => {
                        assert forall|q: int| 0 <= q < r.len() implies domain_on(
                            g.domains,
                            (#[trigger] r[q]).definition.domain,
                        ) by {
                            if q < gs.len() {
                                assert(r[q] == gs[q]);
                            } else {
                                assert(r[q] == p);
                            }
                        }
                    },
                }
            }
        }
    }
}

proof fn lemma_domain_on_enabled(ds: Seq<DomainView>, id: Seq<char>)
    requires
        domains_ok(ds),
        domain_on(ds, id),
    ensures
        !disabled_set(ds).contains(id),
{
    lemma_domain_index(ds, id, 0);
    let i = domain_index(ds, id, 0)->0;
    if disabled_set(ds).contains(id) {
        let k = choose|k: int| 0 <= k < ds.len() && (#[trigger] ds[k]).id == id && !ds[k].enabled;
        if k < i {
            assert(ds[k].id != ds[i].id);
        } else if k > i {
            assert(ds[i].id != ds[k].id);
        }
    }
}

/// What a projection yields: valid corpora with distinct identifiers, none in
/// a disabled domain, whose terms are the values of enabled, promptable nodes
/// in enabled domains (an evidence-activated node only with a live trigger or
/// alias edge), and exactly the disabled domains of the graph.
pub proof fn lemma_projection_sound(g: GraphView)
    ensures
        project_spec(g) matches Some((defs, dis)) ==> {
            &&& forall|k: int| 0 <= k < defs.len() ==> valid_definition(#[trigger] defs[k])
            &&& forall|i: int, j: int| 0 <= i < j < defs.len() ==> (#[trigger] defs[i]).id != (#[trigger] defs[j]).id
            &&& forall|k: int, t: int|
                0 <= k < defs.len() && 0 <= t < defs[k].terms.len() ==> from_promptable_node(
                    g,
                    #[trigger] defs[k].terms[t],
                )
            &&& forall|k: int| 0 <= k < defs.len() ==> !dis.contains(#[trigger] defs[k].domain)
            &&& dis == disabled_set(g.domains)
        },
{
    if let Some((defs, dis)) = project_spec(g) {
        let gs = groups_upto(g, g.nodes.len() as int)->0;
        let ids = assigned_ids(gs, gs.len() as int);
        lemma_assigned_prefix(gs, gs.len() as int, gs.len() as int);
        lemma_assigned_distinct(gs, gs.len() as int);
        lemma_group_terms(g, g.nodes.len() as int);
        lemma_group_domains(g, g.nodes.len() as int);
        assert forall|k: int| 0 <= k < defs.len() implies !dis.contains(#[trigger] defs[k].domain) by {
            assert(defs[k].domain == gs[k].definition.domain);
            lemma_domain_on_enabled(g.domains, defs[k].domain);
        }
        assert forall|i: int, j: int| 0 <= i < j < defs.len() implies (#[trigger] defs[i]).id != (
        #[trigger] defs[j]).id by {
            assert(defs[i].id == ids[i] && defs[j].id == ids[j]);
        }
        assert forall|k: int, t: int| 0 <= k < defs.len() && 0 <= t < defs[k].terms.len() implies from_promptable_node(
            g,
            #[trigger] defs[k].terms[t],
        ) by {
            assert(defs[k].terms == gs[k].definition.terms);
        }
    }
}

} // verus!
