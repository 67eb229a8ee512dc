//! The inheritance graph of templates (`$extends`): its construction,
//! cycle detection, and the merge order of a template's ancestors.
//!
//! The graph is a `petgraph` directed graph whose node `i` is the `i`-th
//! template; an edge goes from a child to each parent it lists.

use indexmap::IndexMap;
use petgraph::graph::{DiGraph, NodeIndex};
use vstd::prelude::*;
use vstd::string::*;

use crate::maps::{keys_of, names_view, template_entries, tm_get_index, tm_len};
use crate::models::{extends_parents, Template};
use crate::text::{str_eq, string_of};

verus! {

#[verifier::external_type_specification]
#[verifier::external_body]
#[verifier::reject_recursive_types(N)]
#[verifier::reject_recursive_types(E)]
#[verifier::reject_recursive_types(Ty)]
#[verifier::reject_recursive_types(Ix)]
pub struct ExGraph<N, E, Ty, Ix>(petgraph::graph::Graph<N, E, Ty, Ix>);

#[verifier::external_type_specification]
#[verifier::external_body]
pub struct ExDirected(petgraph::Directed);

// ---------------------------------------------------------------------------
// The graph, as petgraph keeps it
// ---------------------------------------------------------------------------

/// The names of a graph's nodes, by node index.
pub uninterp spec fn dag_nodes(g: DiGraph<String, ()>) -> Seq<Seq<char>>;

/// The edges of a graph as (source, target) node indices, in the order
/// they were added.
pub uninterp spec fn dag_edges(g: DiGraph<String, ()>) -> Seq<(int, int)>;

/// `DiGraph::new`: no nodes, no edges.
#[verifier::external_body]
fn dag_new() -> (g: DiGraph<String, ()>)
    ensures
        dag_nodes(g) == Seq::<Seq<char>>::empty(),
        dag_edges(g) == Seq::<(int, int)>::empty(),
{
    DiGraph::new()
}

/// `Graph::add_node`: the new node takes the next index.  It panics when
/// the index type (`u32`) is exhausted.
#[verifier::external_body]
fn dag_add_node(g: &mut DiGraph<String, ()>, name: String) -> (i: usize)
    requires
        dag_nodes(*old(g)).len() < u32::MAX,
    ensures
        dag_nodes(*final(g)) == dag_nodes(*old(g)).push(name@),
        dag_edges(*final(g)) == dag_edges(*old(g)),
        i == dag_nodes(*old(g)).len(),
{
    g.add_node(name).index()
}

/// `Graph::add_edge`: appends an edge from `a` to `b`.  It panics when a node
/// does not exist or the index type (`u32`) is exhausted.
#[verifier::external_body]
fn dag_add_edge(g: &mut DiGraph<String, ()>, a: usize, b: usize)
    requires
        a < dag_nodes(*old(g)).len(),
        b < dag_nodes(*old(g)).len(),
        dag_edges(*old(g)).len() < u32::MAX,
    ensures
        dag_nodes(*final(g)) == dag_nodes(*old(g)),
        dag_edges(*final(g)) == dag_edges(*old(g)).push((a as int, b as int)),
{
    g.add_edge(NodeIndex::new(a), NodeIndex::new(b), ());
}

/// `Graph::node_count`.  Every edge of a graph joins two of its nodes
/// (`add_edge` refuses others).
#[verifier::external_body]
fn dag_node_count(g: &DiGraph<String, ()>) -> (n: usize)
    ensures
        n == dag_nodes(*g).len(),
        forall|e: int|
            0 <= e < dag_edges(*g).len() ==> 0 <= (#[trigger] dag_edges(*g)[e]).0 < n && 0
                <= dag_edges(*g)[e].1 < n,
{
    g.node_count()
}

/// `graph[i]`: the name of node `i`.
#[verifier::external_body]
fn dag_node_name(g: &DiGraph<String, ()>, i: usize) -> (r: &String)
    requires
        i < dag_nodes(*g).len(),
    ensures
        r@ == dag_nodes(*g)[i as int],
{
    &g[NodeIndex::new(i)]
}

/// The targets of the first `m` edges that leave `v`, the most recently
/// added first.
pub open spec fn successors_upto(edges: Seq<(int, int)>, v: int, m: int) -> Seq<int>
    decreases m,
{
    if m <= 0 {
        Seq::empty()
    } else {
        (if edges[m - 1].0 == v {
            seq![edges[m - 1].1]
        } else {
            Seq::empty()
        }) + successors_upto(edges, v, m - 1)
    }
}

/// The targets of the edges that leave `v`, the most recently added first.
pub open spec fn successors(edges: Seq<(int, int)>, v: int) -> Seq<int> {
    successors_upto(edges, v, edges.len() as int)
}

/// `Graph::neighbors` of a directed graph: the targets of the edges that
/// leave `i`, the most recently added edge first.
#[verifier::external_body]
fn dag_neighbors(g: &DiGraph<String, ()>, i: usize) -> (r: Vec<usize>)
    requires
        i < dag_nodes(*g).len(),
    ensures
        r@.map_values(|x: usize| x as int) == successors(dag_edges(*g), i as int),
{
    g.neighbors(NodeIndex::new(i)).map(|x| x.index()).collect()
}

/// What `petgraph::algo::toposort` returns for a graph with `n` nodes and
/// these edges: node indices in topological order, or a node on a cycle.
pub uninterp spec fn topo_order(n: nat, edges: Seq<(int, int)>) -> Result<Seq<int>, int>;

/// `petgraph::algo::toposort`.  On success every node occurs once and
/// comes before the targets of its edges; it fails only on a cycle, and the
/// node it then names participates in a cycle (`Cycle::node_id`).
#[verifier::external_body]
fn dag_toposort(g: &DiGraph<String, ()>) -> (r: Result<Vec<usize>, usize>)
    ensures
        match r {
            Ok(v) => topo_order(dag_nodes(*g).len(), dag_edges(*g)) == Ok::<Seq<int>, int>(
                v@.map_values(|x: usize| x as int),
            ),
            Err(c) => topo_order(dag_nodes(*g).len(), dag_edges(*g)) == Err::<Seq<int>, int>(c as int),
        },
        r is Ok ==> r->Ok_0@.len() == dag_nodes(*g).len(),
        r is Ok ==> forall|i: int| 0 <= i < r->Ok_0@.len() ==> #[trigger] r->Ok_0@[i] < dag_nodes(*g).len(),
        r is Ok ==> forall|i: int, j: int|
            0 <= i < r->Ok_0@.len() && 0 <= j < r->Ok_0@.len() && i != j ==> #[trigger] r->Ok_0@[i]
                != #[trigger] r->Ok_0@[j],
        r is Ok ==> forall|i: int, j: int, e: int|
            0 <= i < r->Ok_0@.len() && 0 <= j < r->Ok_0@.len() && 0 <= e < dag_edges(*g).len()
                && #[trigger] r->Ok_0@[i] == (#[trigger] dag_edges(*g)[e]).0 && #[trigger] r->Ok_0@[j]
                == dag_edges(*g)[e].1 ==> i < j,
        r is Err ==> r->Err_0 < dag_nodes(*g).len(),
        r is Err ==> on_cycle(dag_edges(*g), dag_nodes(*g).len(), r->Err_0 as int),
{
    match petgraph::algo::toposort(g, None) {
        Ok(v) => Ok(v.into_iter().map(|x| x.index()).collect()),
        Err(c) => Err(c.node_id().index()),
    }
}

/// Some edge goes from `a` to `b`.
pub open spec fn has_edge(edges: Seq<(int, int)>, a: int, b: int) -> bool {
    exists|e: int| 0 <= e < edges.len() && #[trigger] edges[e] == (a, b)
}

/// Step `i` of `p` follows an edge.
pub open spec fn walk_step(edges: Seq<(int, int)>, p: Seq<int>, i: int) -> bool {
    has_edge(edges, p[i], p[i + 1])
}

/// `p` is a walk along the edges (a single node is a walk).
pub open spec fn is_walk(edges: Seq<(int, int)>, p: Seq<int>) -> bool {
    &&& p.len() >= 1
    &&& forall|i: int| 0 <= i < p.len() - 1 ==> #[trigger] walk_step(edges, p, i)
}

/// Some walk leads from `a` to `b`.
#[verifier::opaque]
pub open spec fn reaches(edges: Seq<(int, int)>, a: int, b: int) -> bool {
    exists|p: Seq<int>| #[trigger] is_walk(edges, p) && p[0] == a && p.last() == b
}

/// `petgraph::algo::has_path_connecting`: whether a walk leads from `a` to
/// `b` (always, when `a == b`).
#[verifier::external_body]
fn dag_has_path(g: &DiGraph<String, ()>, a: usize, b: usize) -> (r: bool)
    requires
        a < dag_nodes(*g).len(),
        b < dag_nodes(*g).len(),
    ensures
        r == reaches(dag_edges(*g), a as int, b as int),
{
    petgraph::algo::has_path_connecting(g, NodeIndex::new(a), NodeIndex::new(b), None)
}

// ---------------------------------------------------------------------------
// Names to node indices
// ---------------------------------------------------------------------------

/// The first position of `x` in `s` (meaningful when `s` contains `x`).
pub open spec fn first_index(s: Seq<Seq<char>>, x: Seq<char>) -> int {
    choose|i: int| 0 <= i < s.len() && s[i] == x && forall|j: int| 0 <= j < i ==> s[j] != x
}

proof fn lemma_first_index(s: Seq<Seq<char>>, x: Seq<char>, i: int)
    requires
        0 <= i < s.len(),
        s[i] == x,
        forall|j: int| 0 <= j < i ==> s[j] != x,
    ensures
        first_index(s, x) == i,
{
    let k = first_index(s, x);
    assert(0 <= k < s.len() && s[k] == x && forall|j: int| 0 <= j < k ==> s[j] != x);
    if k < i {
        assert(s[k] != x);
    }
    if i < k {
        assert(s[i] != x);
    }
}

/// The node index of each template: the template named at position `i`
/// is node `i`.
pub struct NodeMap {
    names: Vec<String>,
}

impl View for NodeMap {
    type V = Seq<Seq<char>>;

    closed spec fn view(&self) -> Seq<Seq<char>> {
        names_view(self.names)
    }
}

impl NodeMap {
    /// The node index of `name`, if it has one.
    pub fn get(&self, name: &str) -> (r: Option<usize>)
        ensures
            match r {
                Some(i) => i < self@.len() && self@[i as int] == name@ && i == first_index(self@, name@),
                None => !self@.contains(name@),
            },
    {
        let mut i: usize = 0;
        while i < self.names.len()
            invariant
                i <= self@.len(),
                self@ == names_view(self.names),
                forall|j: int| 0 <= j < i ==> self@[j] != name@,
            decreases self.names.len() - i,
        {
            if str_eq(self.names[i].as_str(), name) {
                proof {
                    lemma_first_index(self@, name@, i as int);
                }
                return Some(i);
            }
            i = i + 1;
        }
        None
    }

    /// The number of names.
    pub fn len(&self) -> (n: usize)
        ensures
            n == self@.len(),
    {
        self.names.len()
    }
}

// ---------------------------------------------------------------------------
// Errors
// ---------------------------------------------------------------------------

/// Why the inheritance graph cannot be built or ordered.
#[derive(Debug, Clone)]
pub enum DagError {
    /// A template extends a parent that no template file provides.
    MissingParent { template: String, parent: String },
    /// The inheritance has a cycle; `path` walks it by name.
    Cycle { path: String },
    /// The template is not a node of the graph.
    NotInDag { template: String },
    /// Ordering met a cycle that should have been reported before.
    UnexpectedCycle,
}

/// The text of a graph error.
pub open spec fn dag_error_text(e: DagError) -> Seq<char> {
    match e {
        DagError::MissingParent { template, parent } => "Template '"@ + template@ + "' extends '"@ + parent@
            + "', but no template file found for '"@ + parent@ + "'"@,
        DagError::Cycle { path } => "Cycle detected in template inheritance: "@ + path@,
        DagError::NotInDag { template } => "Template '"@ + template@ + "' not found in DAG"@,
        DagError::UnexpectedCycle => "Cycle detected (should have been caught earlier)"@,
    }
}

impl DagError {
    /// The error's message.
    pub fn message(&self) -> (r: String)
        ensures
            r@ == dag_error_text(*self),
    {
        match self {
            DagError::MissingParent { template, parent } => {
                let mut s = string_of("Template '");
                s.append(template.as_str());
                s.append("' extends '");
                s.append(parent.as_str());
                s.append("', but no template file found for '");
                s.append(parent.as_str());
                s.append("'");
                proof {
                    reveal_strlit("Template '");
                    reveal_strlit("' extends '");
                    reveal_strlit("', but no template file found for '");
                    reveal_strlit("'");
                }
                s
            },
            DagError::Cycle { path } => {
                let mut s = string_of("Cycle detected in template inheritance: ");
                s.append(path.as_str());
                s
            },
            DagError::NotInDag { template } => {
                let mut s = string_of("Template '");
                s.append(template.as_str());
                s.append("' not found in DAG");
                proof {
                    reveal_strlit("Template '");
                    reveal_strlit("' not found in DAG");
                }
                s
            },
            DagError::UnexpectedCycle => string_of("Cycle detected (should have been caught earlier)"),
        }
    }
}

// ---------------------------------------------------------------------------
// Building the graph
// ---------------------------------------------------------------------------

/// The parents a template's `$extends` lists (none without one).
pub open spec fn template_parents(t: Template) -> Seq<Seq<char>> {
    match t.extends {
        Some(e) => extends_parents(e),
        None => Seq::empty(),
    }
}

/// The edges from child `c` to the first `n` of its parents `ps`, each
/// parent found among the template names `names`; or the first parent that
/// no template has.
pub open spec fn parent_edges(names: Seq<Seq<char>>, c: int, ps: Seq<Seq<char>>, n: int) -> Result<Seq<(int, int)>, Seq<char>>
    decreases n,
{
    if n <= 0 {
        Ok(Seq::empty())
    } else {
        match parent_edges(names, c, ps, n - 1) {
            Err(p) => Err(p),
            Ok(es) => if names.contains(ps[n - 1]) {
                Ok(es.push((c, first_index(names, ps[n - 1]))))
            } else {
                Err(ps[n - 1])
            },
        }
    }
}

/// The edges of the first `n` templates, children to parents in template
/// order; or the first template (by position) and parent that fails.
pub open spec fn inheritance_edges(ts: Seq<(Seq<char>, Template)>, n: int) -> Result<Seq<(int, int)>, (int, Seq<char>)>
    decreases n,
{
    if n <= 0 {
        Ok(Seq::empty())
    } else {
        match inheritance_edges(ts, n - 1) {
            Err(e) => Err(e),
            Ok(es) => match parent_edges(
                keys_of(ts),
                n - 1,
                template_parents(ts[n - 1].1),
                template_parents(ts[n - 1].1).len() as int,
            ) {
                Ok(more) => Ok(es + more),
                Err(p) => Err((n - 1, p)),
            },
        }
    }
}

/// How many parents the first `n` templates list in all.
pub open spec fn parents_total(ts: Seq<(Seq<char>, Template)>, n: int) -> int
    decreases n,
{
    if n <= 0 {
        0
    } else {
        parents_total(ts, n - 1) + template_parents(ts[n - 1].1).len()
    }
}

proof fn lemma_parents_total_mono(ts: Seq<(Seq<char>, Template)>, a: int, b: int)
    requires
        0 <= a <= b,
    ensures
        parents_total(ts, a) <= parents_total(ts, b),
    decreases b - a,
{
    if a < b {
        lemma_parents_total_mono(ts, a, b - 1);
    }
}

proof fn lemma_inheritance_len(ts: Seq<(Seq<char>, Template)>, n: int)
    requires
        inheritance_edges(ts, n) is Ok,
    ensures
        inheritance_edges(ts, n)->Ok_0.len() == parents_total(ts, if n < 0 { 0 } else { n }),
    decreases n,
{
    if n > 0 {
        lemma_inheritance_len(ts, n - 1);
        let ps = template_parents(ts[n - 1].1);
        lemma_parent_edges_len(keys_of(ts), n - 1, ps, ps.len() as int);
    }
}

proof fn lemma_parent_edges_len(names: Seq<Seq<char>>, c: int, ps: Seq<Seq<char>>, n: int)
    requires
        parent_edges(names, c, ps, n) is Ok,
    ensures
        parent_edges(names, c, ps, n)->Ok_0.len() == if n < 0 { 0 } else { n },
    decreases n,
{
    if n > 0 {
        lemma_parent_edges_len(names, c, ps, n - 1);
    }
}

proof fn lemma_parent_edges_err_stays(names: Seq<Seq<char>>, c: int, ps: Seq<Seq<char>>, a: int, b: int)
    requires
        0 <= a <= b,
        parent_edges(names, c, ps, a) is Err,
    ensures
        parent_edges(names, c, ps, b) == parent_edges(names, c, ps, a),
    decreases b - a,
{
    if a < b {
        lemma_parent_edges_err_stays(names, c, ps, a, b - 1);
    }
}

proof fn lemma_inheritance_err_stays(ts: Seq<(Seq<char>, Template)>, a: int, b: int)
    requires
        0 <= a <= b,
        inheritance_edges(ts, a) is Err,
    ensures
        inheritance_edges(ts, b) == inheritance_edges(ts, a),
    decreases b - a,
{
    if a < b {
        lemma_inheritance_err_stays(ts, a, b - 1);
    }
}

/// Add the edges from node `c` to each of `parents`, in order, stopping at
/// the first parent that has no node; that parent is returned.
#[verifier::spinoff_prover]
#[verifier::rlimit(40)]
fn add_parent_edges(graph: &mut DiGraph<String, ()>, node_map: &NodeMap, c: usize, parents: &Vec<&str>) -> (r: Result<(), String>)
    requires
        dag_nodes(*old(graph)) == node_map@,
        c < node_map@.len(),
        dag_edges(*old(graph)).len() + parents@.len() < u32::MAX,
    ensures
        dag_nodes(*final(graph)) == dag_nodes(*old(graph)),
        ({
            let ps = parents@.map_values(|p: &str| p@);
            match parent_edges(node_map@, c as int, ps, ps.len() as int) {
                Ok(more) => r is Ok && dag_edges(*final(graph)) == dag_edges(*old(graph)) + more,
                Err(p) => r matches Err(q) && q@ == p,
            }
        }),
{
    let ghost ps = parents@.map_values(|p: &str| p@);
    let ghost names = node_map@;
    let ghost base = dag_edges(*graph);
    let mut j: usize = 0;
    while j < parents.len()
        invariant
            names == node_map@,
            dag_nodes(*graph) == names,
            dag_nodes(*old(graph)) == names,
            base == dag_edges(*old(graph)),
            c < names.len(),
            ps == parents@.map_values(|p: &str| p@),
            j <= parents@.len(),
            base.len() + parents@.len() < u32::MAX,
            parent_edges(names, c as int, ps, j as int) is Ok,
            parent_edges(names, c as int, ps, j as int)->Ok_0.len() == j,
            dag_edges(*graph) == base + parent_edges(names, c as int, ps, j as int)->Ok_0,
        decreases parents.len() - j,
    {
        let p = parents[j];
        assert(ps[j as int] == p@);
        match node_map.get(p) {
            None => {
                proof {
                    lemma_parent_edges_err_stays(names, c as int, ps, j + 1, ps.len() as int);
                }
                return Err(string_of(p));
            },
            Some(pi) => {
                dag_add_edge(graph, c, pi);
                proof {
                    assert(names.contains(ps[j as int]));
                    assert(dag_edges(*graph) =~= base + parent_edges(names, c as int, ps, j + 1)->Ok_0);
                }
            },
        }
        j = j + 1;
    }
    Ok(())
}

/// Build the inheritance graph: one node per template, in order, and an
/// edge from each child to each parent it lists.  A parent with no template
/// is an error.
pub fn build_dag(templates: &IndexMap<String, Template>) -> (r: Result<(DiGraph<String, ()>, NodeMap), DagError>)
    requires
        template_entries(*templates).len() < u32::MAX,
        parents_total(template_entries(*templates), template_entries(*templates).len() as int)
            < u32::MAX,
    ensures
        ({
            let ts = template_entries(*templates);
            match inheritance_edges(ts, ts.len() as int) {
                Ok(es) => r is Ok && dag_nodes(r->Ok_0.0) == keys_of(ts) && dag_edges(r->Ok_0.0) == es
                    && r->Ok_0.1@ == keys_of(ts),
                Err((i, p)) => r matches Err(DagError::MissingParent { template, parent })
                    && template@ == ts[i].0 && parent@ == p,
            }
        }),
{
    let ghost ts = template_entries(*templates);
    let ghost names = keys_of(ts);
    let n = tm_len(templates);
    let mut graph = dag_new();
    let mut node_names: Vec<String> = Vec::new();
    let mut i: usize = 0;
    while i < n
        invariant
            ts == template_entries(*templates),
            names == keys_of(ts),
            n == ts.len(),
            n < u32::MAX,
            i <= n,
            dag_nodes(graph) == names.take(i as int),
            dag_edges(graph) == Seq::<(int, int)>::empty(),
            names_view(node_names) == names.take(i as int),
        decreases n - i,
    {
        let (name, _) = tm_get_index(templates, i).unwrap();
        dag_add_node(&mut graph, name.clone());
        let ghost pre = names_view(node_names);
        node_names.push(name.clone());
        proof {
            assert(names_view(node_names) =~= pre.push(name@));
            assert(names.take(i + 1) =~= names.take(i as int).push(name@));
        }
        i = i + 1;
    }
    proof {
        assert(names.take(n as int) =~= names);
    }
    let node_map = NodeMap { names: node_names };
    let mut c: usize = 0;
    while c < n
        invariant
            ts == template_entries(*templates),
            names == keys_of(ts),
            n == ts.len(),
            c <= n,
            parents_total(ts, n as int) < u32::MAX,
            dag_nodes(graph) == names,
            node_map@ == names,
            inheritance_edges(ts, c as int) is Ok,
            dag_edges(graph) == inheritance_edges(ts, c as int)->Ok_0,
        decreases n - c,
    {
        let (cat_name, template) = tm_get_index(templates, c).unwrap();
        let ghost ps = template_parents(ts[c as int].1);
        let ghost base = dag_edges(graph);
        proof {
            lemma_inheritance_len(ts, c as int);
            lemma_parents_total_mono(ts, c + 1, n as int);
        }
        let parents: Vec<&str> = match &template.extends {
            Some(ext) => ext.parents(),
            None => Vec::new(),
        };
        assert(parents@.map_values(|p: &str| p@) =~= ps);
        match add_parent_edges(&mut graph, &node_map, c, &parents) {
            Err(p) => {
                proof {
                    lemma_inheritance_err_stays(ts, c + 1, n as int);
                }
                return Err(DagError::MissingParent { template: cat_name.clone(), parent: p });
            },
            Ok(()) => {},
        }
        c = c + 1;
    }
    Ok((graph, node_map))
}

// ---------------------------------------------------------------------------
// Cycles
// ---------------------------------------------------------------------------

/// How many nodes are not yet visited.
pub open spec fn unvisited(vis: Seq<bool>) -> nat
    decreases vis.len(),
{
    if vis.len() == 0 {
        0
    } else {
        unvisited(vis.drop_last()) + if vis.last() {
            0nat
        } else {
            1nat
        }
    }
}

pub proof fn lemma_unvisited_update(vis: Seq<bool>, x: int)
    requires
        0 <= x < vis.len(),
        !vis[x],
    ensures
        unvisited(vis.update(x, true)) + 1 == unvisited(vis),
    decreases vis.len(),
{
    if x == vis.len() - 1 {
        assert(vis.update(x, true).drop_last() =~= vis.drop_last());
    } else {
        lemma_unvisited_update(vis.drop_last(), x);
        assert(vis.update(x, true).drop_last() =~= vis.drop_last().update(x, true));
    }
}

/// `parts` joined by `sep`.
pub open spec fn join_with(parts: Seq<Seq<char>>, sep: Seq<char>) -> Seq<char>
    decreases parts.len(),
{
    if parts.len() == 0 {
        Seq::empty()
    } else if parts.len() == 1 {
        parts[0]
    } else {
        join_with(parts.drop_last(), sep) + sep + parts.last()
    }
}

/// The separator of a reported cycle.
pub open spec fn arrow() -> Seq<char> {
    " \u{2192} "@
}

/// The names of the nodes along `path`.
pub open spec fn path_names(nodes: Seq<Seq<char>>, path: Seq<int>) -> Seq<Seq<char>> {
    path.map_values(|v: int| nodes[v])
}

fn join_node_names(graph: &DiGraph<String, ()>, path: &Vec<usize>) -> (r: String)
    requires
        forall|i: int| 0 <= i < path@.len() ==> #[trigger] path@[i] < dag_nodes(*graph).len(),
    ensures
        r@ == join_with(
            path@.map_values(|x: usize| x as int).map_values(|v: int| dag_nodes(*graph)[v]),
            arrow(),
        ),
{
    let ghost parts = path@.map_values(|x: usize| x as int).map_values(|v: int| dag_nodes(*graph)[v]);
    let mut s = String::new();
    let mut i: usize = 0;
    while i < path.len()
        invariant
            parts == path@.map_values(|x: usize| x as int).map_values(|v: int| dag_nodes(*graph)[v]),
            forall|k: int| 0 <= k < path@.len() ==> #[trigger] path@[k] < dag_nodes(*graph).len(),
            i <= path@.len(),
            s@ == join_with(parts.take(i as int), arrow()),
        decreases path.len() - i,
    {
        if i > 0 {
            s.append(" \u{2192} ");
        }
        let name = dag_node_name(graph, path[i]);
        s.append(name.as_str());
        proof {
            reveal_strlit(" \u{2192} ");
            assert(parts[i as int] == name@);
            assert(parts.take(i + 1).drop_last() =~= parts.take(i as int));
            if i == 0 {
                assert(s@ =~= join_with(parts.take(1), arrow()));
            } else {
                assert(s@ =~= join_with(parts.take(i + 1), arrow()));
            }
        }
        i = i + 1;
    }
    proof {
        assert(parts.take(path@.len() as int) =~= parts);
    }
    s
}

/// Node `c` lies on a cycle: a walk of at least one step, over nodes below
/// `n`, leads from `c` back to `c`.
pub open spec fn on_cycle(edges: Seq<(int, int)>, n: nat, c: int) -> bool {
    exists|p: Seq<int>|
        #[trigger] is_walk(edges, p) && p.len() >= 2 && p[0] == c && p.last() == c && forall|i: int|
            0 <= i < p.len() ==> 0 <= #[trigger] p[i] < n
}

/// `p` goes round once: no node occurs twice in it, but for its first
/// node again at the end.
pub open spec fn round_once(p: Seq<int>) -> bool {
    forall|i: int, j: int| 0 <= i < j < p.len() && p[i] == p[j] ==> i == 0 && j == p.len() - 1
}

/// `text` reports a cycle through `c`: the names along a walk of at least
/// one step from `c` back to `c` that passes no other node twice, joined by
/// arrows.
pub open spec fn reports_cycle(nodes: Seq<Seq<char>>, edges: Seq<(int, int)>, c: int, text: Seq<char>) -> bool {
    exists|p: Seq<int>|
        #[trigger] is_walk(edges, p) && p.len() >= 2 && p[0] == c && p.last() == c && round_once(p) && (forall|i: int|
            0 <= i < p.len() ==> 0 <= #[trigger] p[i] < nodes.len()) && text == join_with(path_names(nodes, p), arrow())
}

/// The nodes of `p` are distinct and all marked in `found`.
pub open spec fn fresh_walk(found: Seq<bool>, p: Seq<usize>) -> bool {
    &&& ints(p).no_duplicates()
    &&& forall|k: int| 0 <= k < p.len() ==> #[trigger] found[p[k] as int]
}

/// The node indices of a path, as integers.
pub open spec fn ints(p: Seq<usize>) -> Seq<int> {
    p.map_values(|x: usize| x as int)
}

/// `p` is a walk from `start` to `x` over nodes below `n`.
pub open spec fn walk_to(edges: Seq<(int, int)>, n: nat, start: int, p: Seq<usize>, x: int) -> bool {
    &&& is_walk(edges, ints(p))
    &&& ints(p)[0] == start
    &&& ints(p).last() == x
    &&& forall|i: int| 0 <= i < p.len() ==> #[trigger] p[i] < n
}

/// Every node reached has all its successors reached, and none of them is
/// `start`.
pub open spec fn closed_without(edges: Seq<(int, int)>, found: Seq<bool>, start: int) -> bool {
    forall|x: int, j: int|
        0 <= x < found.len() && found[x] && 0 <= j < successors(edges, x).len() ==> {
            let w = #[trigger] successors(edges, x)[j];
            &&& w != start
            &&& 0 <= w < found.len()
            &&& found[w]
        }
}

proof fn lemma_successor_is_edge(edges: Seq<(int, int)>, v: int, m: int, j: int)
    requires
        0 <= m <= edges.len(),
        0 <= j < successors_upto(edges, v, m).len(),
    ensures
        has_edge(edges, v, successors_upto(edges, v, m)[j]),
    decreases m,
{
    if m > 0 {
        let head: Seq<int> = if edges[m - 1].0 == v {
            seq![edges[m - 1].1]
        } else {
            Seq::empty()
        };
        if j < head.len() {
            assert(edges[m - 1] == (v, successors_upto(edges, v, m)[j]));
        } else {
            lemma_successor_is_edge(edges, v, m - 1, j - head.len());
        }
    }
}

proof fn lemma_edge_is_successor(edges: Seq<(int, int)>, v: int, w: int, m: int, e: int)
    requires
        0 <= e < m <= edges.len(),
        edges[e] == (v, w),
    ensures
        exists|j: int| 0 <= j < successors_upto(edges, v, m).len() && #[trigger] successors_upto(edges, v, m)[j] == w,
    decreases m,
{
    let head: Seq<int> = if edges[m - 1].0 == v {
        seq![edges[m - 1].1]
    } else {
        Seq::empty()
    };
    let s = successors_upto(edges, v, m);
    assert(s == head + successors_upto(edges, v, m - 1));
    if e == m - 1 {
        assert(s[0] == w);
    } else {
        lemma_edge_is_successor(edges, v, w, m - 1, e);
        let j = choose|j: int| 0 <= j < successors_upto(edges, v, m - 1).len() && #[trigger] successors_upto(edges, v, m - 1)[j] == w;
        assert(s[head.len() + j] == w);
    }
}

proof fn lemma_walk_extend(edges: Seq<(int, int)>, p: Seq<int>, w: int)
    requires
        is_walk(edges, p),
        has_edge(edges, p.last(), w),
    ensures
        is_walk(edges, p.push(w)),
{
    let q = p.push(w);
    assert forall|i: int| 0 <= i < q.len() - 1 implies #[trigger] walk_step(edges, q, i) by {
        if i < p.len() - 1 {
            assert(walk_step(edges, p, i));
            assert(q[i] == p[i] && q[i + 1] == p[i + 1]);
        } else {
            assert(q[i] == p.last() && q[i + 1] == w);
        }
    }
}

proof fn lemma_closed_walk(edges: Seq<(int, int)>, found: Seq<bool>, start: int, p: Seq<int>, k: int)
    requires
        closed_without(edges, found, start),
        0 <= start < found.len(),
        found[start],
        is_walk(edges, p),
        p[0] == start,
        0 <= k < p.len(),
    ensures
        0 <= p[k] < found.len(),
        found[p[k]],
        k > 0 ==> p[k] != start,
    decreases k,
{
    if k > 0 {
        lemma_closed_walk(edges, found, start, p, k - 1);
        assert(walk_step(edges, p, k - 1));
        let e = choose|e: int| 0 <= e < edges.len() && #[trigger] edges[e] == (p[k - 1], p[k]);
        lemma_edge_is_successor(edges, p[k - 1], p[k], edges.len() as int, e);
        let j = choose|j: int| 0 <= j < successors(edges, p[k - 1]).len() && #[trigger] successors(edges, p[k - 1])[j] == p[k];
        assert(successors(edges, p[k - 1])[j] == p[k]);
    }
}

/// Find a cycle through `start` for the error report: search outward from
/// `start` along the edges, breadth first, keeping for each node reached a
/// walk from `start` to it, until a node with an edge back to `start` turns
/// up; the report is that walk, closed at `start`.
fn trace_cycle(graph: &DiGraph<String, ()>, start: usize) -> (r: String)
    requires
        start < dag_nodes(*graph).len(),
        on_cycle(dag_edges(*graph), dag_nodes(*graph).len(), start as int),
    ensures
        reports_cycle(dag_nodes(*graph), dag_edges(*graph), start as int, r@),
{
    let ghost es = dag_edges(*graph);
    let ghost nodes = dag_nodes(*graph);
    let n = dag_node_count(graph);
    let mut found: Vec<bool> = Vec::new();
    let mut k: usize = 0;
    while k < n
        invariant
            k <= n,
            found@ == Seq::new(k as nat, |i: int| i == start),
        decreases n - k,
    {
        found.push(k == start);
        proof {
            assert(found@ =~= Seq::new((k + 1) as nat, |i: int| i == start));
        }
        k = k + 1;
    }
    let mut order: Vec<usize> = Vec::new();
    order.push(start);
    let mut first: Vec<usize> = Vec::new();
    first.push(start);
    let mut walks: Vec<Vec<usize>> = Vec::new();
    walks.push(first);
    proof {
        assert(ints(walks@[0]@) =~= seq![start as int]);
        assert(is_walk(es, ints(walks@[0]@)));
        assert(fresh_walk(found@, walks@[0]@));
        assert forall|x: int| 0 <= x < n && found@[x] implies exists|i: int|
            0 <= i < order@.len() && order@[i] == x by {
            assert(order@[0] == x);
        }
    }
    let mut head: usize = 0;
    while head < order.len()
        invariant
            es == dag_edges(*graph),
            nodes == dag_nodes(*graph),
            n == nodes.len(),
            forall|e: int| 0 <= e < es.len() ==> 0 <= (#[trigger] es[e]).0 < n && 0 <= es[e].1 < n,
            start < n,
            on_cycle(es, n as nat, start as int),
            found@.len() == n,
            found@[start as int],
            order@.len() == walks@.len(),
            head <= order@.len(),
            forall|i: int| 0 <= i < order@.len() ==> #[trigger] order@[i] < n && found@[order@[i] as int],
            forall|x: int| 0 <= x < n && found@[x] ==> exists|i: int| 0 <= i < order@.len() && order@[i] == x,
            forall|i: int| 0 <= i < order@.len() ==> walk_to(es, n as nat, start as int, #[trigger] walks@[i]@, order@[i] as int),
            forall|i: int| 0 <= i < walks@.len() ==> fresh_walk(found@, #[trigger] walks@[i]@),
            forall|i: int, j: int|
                0 <= i < head && 0 <= j < successors(es, order@[i] as int).len() ==> {
                    let w = #[trigger] successors(es, order@[i] as int)[j];
                    w != start && 0 <= w < n && found@[w]
                },
        decreases unvisited(found@) + (order@.len() - head),
    {
        let v = order[head];
        let ns = dag_neighbors(graph, v);
        let ghost sv = successors(es, v as int);
        let ghost budget = unvisited(found@) + order@.len();
        let mut j: usize = 0;
        while j < ns.len()
            invariant
                es == dag_edges(*graph),
                nodes == dag_nodes(*graph),
                n == nodes.len(),
                forall|e: int| 0 <= e < es.len() ==> 0 <= (#[trigger] es[e]).0 < n && 0 <= es[e].1 < n,
                start < n,
                v < n,
                head < order@.len(),
                order@[head as int] == v,
                sv == successors(es, v as int),
                ns@.map_values(|x: usize| x as int) == sv,
                j <= ns@.len(),
                found@.len() == n,
                found@[start as int],
                order@.len() == walks@.len(),
                unvisited(found@) + order@.len() == budget,
                forall|i: int| 0 <= i < order@.len() ==> #[trigger] order@[i] < n && found@[order@[i] as int],
                forall|x: int| 0 <= x < n && found@[x] ==> exists|i: int| 0 <= i < order@.len() && order@[i] == x,
                forall|i: int| 0 <= i < order@.len() ==> walk_to(es, n as nat, start as int, #[trigger] walks@[i]@, order@[i] as int),
                forall|i: int| 0 <= i < walks@.len() ==> fresh_walk(found@, #[trigger] walks@[i]@),
                forall|i: int, jj: int|
                    0 <= i < head && 0 <= jj < successors(es, order@[i] as int).len() ==> {
                        let w = #[trigger] successors(es, order@[i] as int)[jj];
                        w != start && 0 <= w < n && found@[w]
                    },
                forall|jj: int| 0 <= jj < j ==> {
                    let w = #[trigger] sv[jj];
                    w != start && 0 <= w < n && found@[w]
                },
            decreases ns.len() - j,
        {
            let w = ns[j];
            assert(sv[j as int] == w as int);
            proof {
                lemma_successor_is_edge(es, v as int, es.len() as int, j as int);
                lemma_successor_bound(es, v as int, es.len() as int, n as int, j as int);
            }
            if w == start {
                let mut p = walks[head].clone();
                assert(p@ =~= walks@[head as int]@);
                p.push(start);
                proof {
                    let q = ints(walks@[head as int]@);
                    assert(walk_to(es, n as nat, start as int, walks@[head as int]@, v as int));
                    lemma_walk_extend(es, q, start as int);
                    assert(ints(p@) =~= q.push(start as int));
                }
                let r = join_node_names(graph, &p);
                proof {
                    let q = ints(p@);
                    assert(q.map_values(|x: int| nodes[x]) =~= path_names(nodes, q));
                    assert(forall|i: int| 0 <= i < q.len() ==> 0 <= #[trigger] q[i] < nodes.len());
                    assert(is_walk(es, q) && q.len() >= 2 && q[0] == start && q.last() == start);
                    let wq = ints(walks@[head as int]@);
                    assert(fresh_walk(found@, walks@[head as int]@));
                    assert(wq[0] == start);
                    assert forall|a: int, b: int| 0 <= a < b < q.len() && q[a] == q[b] implies a == 0 && b == q.len() - 1 by {
                        if b < q.len() - 1 {
                            assert(wq[a] == wq[b]);
                        } else {
                            assert(wq[a] == wq[0]);
                        }
                    }
                    assert(round_once(q));
                }
                return r;
            }
            if !found[w] {
                proof {
                    lemma_unvisited_update(found@, w as int);
                }
                let ghost old_found = found@;
                found.set(w, true);
                proof {
                    assert forall|i: int| 0 <= i < walks@.len() implies fresh_walk(found@, #[trigger] walks@[i]@) by {
                        assert(fresh_walk(old_found, walks@[i]@));
                        assert forall|k: int| 0 <= k < walks@[i]@.len() implies #[trigger] found@[walks@[i]@[k] as int] by {
                            assert(old_found[walks@[i]@[k] as int]);
                        }
                    }
                }
                let mut p = walks[head].clone();
                assert(p@ =~= walks@[head as int]@);
                p.push(w);
                proof {
                    let q = ints(walks@[head as int]@);
                    assert(walk_to(es, n as nat, start as int, walks@[head as int]@, v as int));
                    lemma_walk_extend(es, q, w as int);
                    assert(ints(p@) =~= q.push(w as int));
                    let old_walk = walks@[head as int]@;
                    assert(fresh_walk(found@, old_walk));
                    assert forall|k: int| 0 <= k < old_walk.len() implies #[trigger] q[k] != w as int by {
                        assert(old_found[old_walk[k] as int]);
                    }
                    assert forall|a: int, b: int| 0 <= a < ints(p@).len() && 0 <= b < ints(p@).len() && a != b
                        implies ints(p@)[a] != ints(p@)[b] by {
                        if a < q.len() && b < q.len() {
                            assert(q[a] != q[b]);
                        }
                    }
                    assert forall|k: int| 0 <= k < p@.len() implies #[trigger] found@[p@[k] as int] by {
                        if k < old_walk.len() {
                            assert(p@[k] == old_walk[k]);
                        }
                    }
                    assert(fresh_walk(found@, p@));
                }
                let ghost old_order = order@;
                let ghost old_walks = walks@;
                order.push(w);
                walks.push(p);
                proof {
                    assert forall|x: int| 0 <= x < n && found@[x] implies exists|i: int|
                        0 <= i < order@.len() && order@[i] == x by {
                        if x == w as int {
                            assert(order@[old_order.len() as int] == x);
                        } else {
                            let i = choose|i: int| 0 <= i < old_order.len() && old_order[i] == x;
                            assert(order@[i] == x);
                        }
                    }
                    assert forall|i: int| 0 <= i < order@.len() implies walk_to(
                        es,
                        n as nat,
                        start as int,
                        #[trigger] walks@[i]@,
                        order@[i] as int,
                    ) by {
                        if i < old_order.len() {
                            assert(walks@[i] == old_walks[i]);
                        }
                    }
                    assert forall|i: int| 0 <= i < walks@.len() implies fresh_walk(found@, #[trigger] walks@[i]@) by {
                        if i < old_walks.len() {
                            assert(walks@[i] == old_walks[i]);
                        }
                    }
                }
            }
            j = j + 1;
        }
        proof {
            assert forall|i: int, jj: int|
                0 <= i < head + 1 && 0 <= jj < successors(es, order@[i] as int).len() implies {
                    let w = #[trigger] successors(es, order@[i] as int)[jj];
                    w != start && 0 <= w < n && found@[w]
                } by {
                if i == head as int {
                    assert(sv[jj] == successors(es, order@[i] as int)[jj]);
                }
            }
        }
        head = head + 1;
    }
    proof {
        assert(closed_without(es, found@, start as int)) by {
            assert forall|x: int, jj: int|
                0 <= x < found@.len() && found@[x] && 0 <= jj < successors(es, x).len() implies {
                    let w = #[trigger] successors(es, x)[jj];
                    &&& w != start
                    &&& 0 <= w < found@.len()
                    &&& found@[w]
                } by {
                let i = choose|i: int| 0 <= i < order@.len() && order@[i] == x;
                assert(successors(es, order@[i] as int)[jj] == successors(es, x)[jj]);
            }
        }
        let p = choose|p: Seq<int>|
            #[trigger] is_walk(es, p) && p.len() >= 2 && p[0] == start && p.last() == start && forall|i: int|
                0 <= i < p.len() ==> 0 <= #[trigger] p[i] < n;
        lemma_closed_walk(es, found@, start as int, p, p.len() - 1);
        assert(false);
    }
    String::new()
}

proof fn lemma_successor_bound(edges: Seq<(int, int)>, v: int, m: int, n: int, i: int)
    requires
        0 <= m <= edges.len(),
        forall|e: int| 0 <= e < edges.len() ==> 0 <= (#[trigger] edges[e]).0 < n && 0 <= edges[e].1 < n,
        0 <= i < successors_upto(edges, v, m).len(),
    ensures
        0 <= successors_upto(edges, v, m)[i] < n,
    decreases m,
{
    if m > 0 {
        let head: Seq<int> = if edges[m - 1].0 == v {
            seq![edges[m - 1].1]
        } else {
            Seq::empty()
        };
        if i >= head.len() {
            lemma_successor_bound(edges, v, m - 1, n, i - head.len());
        }
    }
}

/// Some walk of at least one step, over nodes below `n`, leads from a node
/// back to itself.
pub open spec fn has_cycle(edges: Seq<(int, int)>, n: nat) -> bool {
    exists|p: Seq<int>|
        #[trigger] is_walk(edges, p) && p.len() >= 2 && p[0] == p.last() && forall|i: int|
            0 <= i < p.len() ==> 0 <= #[trigger] p[i] < n
}

/// The position of `x` in `order` (meaningful when it occurs).
pub open spec fn order_pos(order: Seq<usize>, x: int) -> int {
    choose|i: int| 0 <= i < order.len() && order[i] == x
}

/// `order` holds each node below `n` once, and every edge goes forward in
/// it.
pub open spec fn is_topological(order: Seq<usize>, edges: Seq<(int, int)>, n: nat) -> bool {
    &&& order.len() == n
    &&& forall|i: int| 0 <= i < order.len() ==> #[trigger] order[i] < n
    &&& forall|i: int, j: int| 0 <= i < order.len() && 0 <= j < order.len() && i != j ==> #[trigger] order[i] != #[trigger] order[j]
    &&& forall|i: int, j: int, e: int|
        0 <= i < order.len() && 0 <= j < order.len() && 0 <= e < edges.len() && #[trigger] order[i] == (
        #[trigger] edges[e]).0 && #[trigger] order[j] == edges[e].1 ==> i < j
}

proof fn lemma_order_covers(order: Seq<usize>, edges: Seq<(int, int)>, n: nat, x: int)
    requires
        is_topological(order, edges, n),
        0 <= x < n,
    ensures
        exists|i: int| 0 <= i < order.len() && order[i] == x,
{
    broadcast use vstd::seq_lib::seq_to_set_is_finite;

    let s = order.map_values(|u: usize| u as int);
    assert(s.no_duplicates()) by {
        assert forall|i: int, j: int| 0 <= i < s.len() && 0 <= j < s.len() && i != j implies s[i] != s[j] by {
            assert(order[i] != order[j]);
        }
    }
    s.unique_seq_to_set();
    vstd::set_lib::lemma_int_range(0, n as int);
    let r = vstd::set_lib::set_int_range(0, n as int);
    assert(s.to_set().subset_of(r)) by {
        assert forall|y: int| s.to_set().contains(y) implies r.contains(y) by {
            let i = choose|i: int| 0 <= i < s.len() && s[i] == y;
            assert(order[i] < n);
        }
    }
    vstd::set_lib::lemma_subset_equality(s.to_set(), r);
    assert(r.contains(x));
    assert(s.to_set().contains(x));
    let i = choose|i: int| 0 <= i < s.len() && s[i] == x;
    assert(order[i] == x);
}

proof fn lemma_walk_goes_forward(order: Seq<usize>, edges: Seq<(int, int)>, n: nat, p: Seq<int>, k: int)
    requires
        is_topological(order, edges, n),
        is_walk(edges, p),
        forall|i: int| 0 <= i < p.len() ==> 0 <= #[trigger] p[i] < n,
        1 <= k < p.len(),
    ensures
        0 <= order_pos(order, p[0]) < order.len(),
        0 <= order_pos(order, p[k]) < order.len(),
        order[order_pos(order, p[0])] == p[0],
        order[order_pos(order, p[k])] == p[k],
        order_pos(order, p[0]) < order_pos(order, p[k]),
    decreases k,
{
    assert(0 <= p[k - 1] < n);
    assert(0 <= p[k] < n);
    lemma_order_covers(order, edges, n, p[k - 1]);
    lemma_order_covers(order, edges, n, p[k]);
    let a = order_pos(order, p[k - 1]);
    let b = order_pos(order, p[k]);
    assert(walk_step(edges, p, k - 1));
    let e = choose|e: int| 0 <= e < edges.len() && #[trigger] edges[e] == (p[k - 1], p[k]);
    assert(order[a] == edges[e].0);
    assert(order[b] == edges[e].1);
    assert(a < b);
    if k > 1 {
        lemma_walk_goes_forward(order, edges, n, p, k - 1);
    } else {
        assert(0 <= p[0] < n);
        lemma_order_covers(order, edges, n, p[0]);
    }
}

/// A graph with a topological order has no cycle.
proof fn lemma_topological_acyclic(order: Seq<usize>, edges: Seq<(int, int)>, n: nat)
    requires
        is_topological(order, edges, n),
    ensures
        !has_cycle(edges, n),
{
    if has_cycle(edges, n) {
        let p = choose|p: Seq<int>|
            #[trigger] is_walk(edges, p) && p.len() >= 2 && p[0] == p.last() && forall|i: int|
                0 <= i < p.len() ==> 0 <= #[trigger] p[i] < n;
        lemma_walk_goes_forward(order, edges, n, p, p.len() - 1);
    }
}

/// Check that the inheritance graph has no cycle.  It passes exactly when
/// no walk along the edges leads from a template back to itself; a cycle is
/// reported with the names along one, from a node on it back to that node.
pub fn detect_cycles(graph: &DiGraph<String, ()>) -> (r: Result<(), DagError>)
    ensures
        match topo_order(dag_nodes(*graph).len(), dag_edges(*graph)) {
            Ok(_) => r is Ok,
            Err(c) => r matches Err(DagError::Cycle { path }) && reports_cycle(
                dag_nodes(*graph),
                dag_edges(*graph),
                c,
                path@,
            ),
        },
        r is Ok <==> !has_cycle(dag_edges(*graph), dag_nodes(*graph).len()),
{
    match dag_toposort(graph) {
        Ok(order) => {
            proof {
                lemma_topological_acyclic(order@, dag_edges(*graph), dag_nodes(*graph).len());
            }
            Ok(())
        },
        Err(start) => {
            let path = trace_cycle(graph, start);
            proof {
                let p = choose|p: Seq<int>|
                    #[trigger] is_walk(dag_edges(*graph), p) && p.len() >= 2 && p[0] == start as int && p.last()
                        == start as int && forall|i: int| 0 <= i < p.len() ==> 0 <= #[trigger] p[i] < dag_nodes(*graph).len();
                assert(is_walk(dag_edges(*graph), p) && p.len() >= 2 && p[0] == p.last());
            }
            Err(DagError::Cycle { path })
        },
    }
}

// ---------------------------------------------------------------------------
// Ancestors
// ---------------------------------------------------------------------------

/// `v` is an ancestor of `t`: another node that `t` reaches.
pub open spec fn is_ancestor(edges: Seq<(int, int)>, t: int, v: int) -> bool {
    v != t && reaches(edges, t, v)
}

/// `t` has an ancestor among the `n` nodes.
pub open spec fn has_ancestor(n: int, edges: Seq<(int, int)>, t: int) -> bool {
    exists|v: int| 0 <= v < n && #[trigger] is_ancestor(edges, t, v)
}

/// The parents of `v` in the order they were declared: the targets of the
/// edges that leave `v`, the first added first.
pub open spec fn parents_of(edges: Seq<(int, int)>, v: int) -> Seq<int> {
    let s = successors(edges, v);
    Seq::new(s.len(), |i: int| s[s.len() - 1 - i])
}

/// A depth-first walk from `v`: unless `v` is in `done` already (or the
/// depth allowance `fuel` is spent), walk from each parent of `v` in
/// declaration order, then append `v`.
pub open spec fn merge_visit(edges: Seq<(int, int)>, fuel: nat, v: int, done: Seq<int>) -> Seq<int>
    decreases fuel, 0int, 0int,
{
    if fuel == 0 || done.contains(v) {
        done
    } else {
        merge_visit_from(edges, (fuel - 1) as nat, parents_of(edges, v), 0, done).push(v)
    }
}

/// Walk from `list[i]`, then from each later entry of `list` in turn, as
/// `merge_visit` does.
pub open spec fn merge_visit_from(edges: Seq<(int, int)>, fuel: nat, list: Seq<int>, i: int, done: Seq<int>) -> Seq<int>
    decreases fuel, 1int, list.len() - i,
{
    if i < 0 || i >= list.len() {
        done
    } else {
        merge_visit_from(edges, fuel, list, i + 1, merge_visit(edges, fuel, list[i], done))
    }
}

/// The ancestors of node `t` in merge order, for a graph of `n` nodes: walk
/// depth-first from each parent of `t` in declaration order, listing a node
/// after all it extends and not again once listed.  The walk may go `n`
/// deep, more than any chain of `$extends` without a cycle needs.
pub open spec fn merge_order(n: nat, edges: Seq<(int, int)>, t: int) -> Seq<int> {
    merge_visit_from(edges, n, parents_of(edges, t), 0, Seq::empty())
}

/// The ancestors of node `t` in merge order, or `None` when `t` has some
/// ancestor and the graph's topological ordering meets a cycle.
pub open spec fn ancestor_nodes(n: nat, edges: Seq<(int, int)>, t: int) -> Option<Seq<int>> {
    if !has_ancestor(n as int, edges, t) {
        Some(Seq::empty())
    } else {
        match topo_order(n, edges) {
            Ok(_) => Some(merge_order(n, edges, t)),
            Err(_) => None,
        }
    }
}

/// Whether node `t` has an ancestor: some other node that a walk from `t`
/// reaches.
fn any_ancestor(graph: &DiGraph<String, ()>, t: usize) -> (r: bool)
    requires
        t < dag_nodes(*graph).len(),
    ensures
        r == has_ancestor(dag_nodes(*graph).len() as int, dag_edges(*graph), t as int),
{
    let ghost es = dag_edges(*graph);
    let n = dag_node_count(graph);
    let mut any = false;
    let mut v: usize = 0;
    while v < n
        invariant
            es == dag_edges(*graph),
            n == dag_nodes(*graph).len(),
            t < n,
            v <= n,
            any == exists|i: int| 0 <= i < v && #[trigger] is_ancestor(es, t as int, i),
        decreases n - v,
    {
        let b = v != t && dag_has_path(graph, t, v);
        assert(b == is_ancestor(es, t as int, v as int));
        if b {
            any = true;
        }
        proof {
            if !b {
                assert forall|i: int| 0 <= i < v + 1 && #[trigger] is_ancestor(es, t as int, i) implies 0 <= i < v by {
                    if i == v {
                        assert(!is_ancestor(es, t as int, v as int));
                    }
                }
            }
        }
        v = v + 1;
    }
    any
}

proof fn lemma_contains_push(s: Seq<int>, v: int, k: int)
    ensures
        s.push(v).contains(k) <==> s.contains(k) || k == v,
{
    let q = s.push(v);
    if q.contains(k) {
        let i = choose|i: int| 0 <= i < q.len() && q[i] == k;
        if i < s.len() {
            assert(s[i] == k);
        }
    }
    if s.contains(k) {
        let i = choose|i: int| 0 <= i < s.len() && s[i] == k;
        assert(q[i] == k);
    }
    if k == v {
        assert(q[s.len() as int] == k);
    }
}

/// The depth-first walk of `merge_visit`, appending to `done`; `seen` marks
/// the nodes listed in `done`.
fn merge_walk(graph: &DiGraph<String, ()>, n: usize, fuel: usize, v: usize, done: &mut Vec<usize>, seen: &mut Vec<bool>)
    requires
        n == dag_nodes(*graph).len(),
        forall|e: int|
            0 <= e < dag_edges(*graph).len() ==> 0 <= (#[trigger] dag_edges(*graph)[e]).0 < n && 0
                <= dag_edges(*graph)[e].1 < n,
        v < n,
        old(seen)@.len() == n,
        forall|k: int| 0 <= k < n ==> #[trigger] old(seen)@[k] == ints(old(done)@).contains(k),
        forall|k: int| 0 <= k < old(done)@.len() ==> #[trigger] old(done)@[k] < n,
    ensures
        ints(final(done)@) == merge_visit(dag_edges(*graph), fuel as nat, v as int, ints(old(done)@)),
        final(seen)@.len() == n,
        forall|k: int| 0 <= k < n ==> #[trigger] final(seen)@[k] == ints(final(done)@).contains(k),
        forall|k: int| 0 <= k < final(done)@.len() ==> #[trigger] final(done)@[k] < n,
    decreases fuel,
{
    let ghost es = dag_edges(*graph);
    let ghost d0 = ints(done@);
    if fuel == 0 || seen[v] {
        return;
    }
    let ps = dag_neighbors(graph, v);
    let ghost list = parents_of(es, v as int);
    let len = ps.len();
    let mut i: usize = 0;
    while i < len
        invariant
            es == dag_edges(*graph),
            n == dag_nodes(*graph).len(),
            forall|e: int| 0 <= e < es.len() ==> 0 <= (#[trigger] es[e]).0 < n && 0 <= es[e].1 < n,
            v < n,
            0 < fuel,
            !d0.contains(v as int),
            len == ps@.len(),
            ps@.map_values(|x: usize| x as int) == successors(es, v as int),
            list == parents_of(es, v as int),
            i <= len,
            seen@.len() == n,
            forall|k: int| 0 <= k < n ==> #[trigger] seen@[k] == ints(done@).contains(k),
            forall|k: int| 0 <= k < done@.len() ==> #[trigger] done@[k] < n,
            merge_visit_from(es, (fuel - 1) as nat, list, 0, d0) == merge_visit_from(
                es,
                (fuel - 1) as nat,
                list,
                i as int,
                ints(done@),
            ),
        decreases len - i,
    {
        let w = ps[len - 1 - i];
        proof {
            assert(ps@.map_values(|x: usize| x as int)[len - 1 - i] == w as int);
            assert(list[i as int] == w as int);
            lemma_successor_bound(es, v as int, es.len() as int, n as int, (len - 1 - i) as int);
        }
        let ghost before = ints(done@);
        merge_walk(graph, n, fuel - 1, w, done, seen);
        proof {
            assert(merge_visit_from(es, (fuel - 1) as nat, list, i as int, before) == merge_visit_from(
                es,
                (fuel - 1) as nat,
                list,
                i + 1,
                merge_visit(es, (fuel - 1) as nat, list[i as int], before),
            ));
        }
        i = i + 1;
    }
    let ghost pre = ints(done@);
    done.push(v);
    seen.set(v, true);
    proof {
        assert(ints(done@) =~= pre.push(v as int));
        assert forall|k: int| 0 <= k < n implies #[trigger] seen@[k] == ints(done@).contains(k) by {
            lemma_contains_push(pre, v as int, k);
        }
    }
}

/// The names of node `t`'s ancestors in merge order.
fn merge_order_names(graph: &DiGraph<String, ()>, t: usize) -> (out: Vec<String>)
    requires
        t < dag_nodes(*graph).len(),
    ensures
        names_view(out) == path_names(dag_nodes(*graph), merge_order(dag_nodes(*graph).len(), dag_edges(*graph), t as int)),
{
    let ghost es = dag_edges(*graph);
    let ghost nodes = dag_nodes(*graph);
    let n = dag_node_count(graph);
    let mut seen: Vec<bool> = Vec::new();
    let mut k: usize = 0;
    while k < n
        invariant
            k <= n,
            seen@ == Seq::new(k as nat, |i: int| false),
        decreases n - k,
    {
        seen.push(false);
        proof {
            assert(seen@ =~= Seq::new((k + 1) as nat, |i: int| false));
        }
        k = k + 1;
    }
    let mut done: Vec<usize> = Vec::new();
    let ghost list = parents_of(es, t as int);
    let ps = dag_neighbors(graph, t);
    let len = ps.len();
    let mut i: usize = 0;
    proof {
        assert(ints(done@) =~= Seq::<int>::empty());
    }
    while i < len
        invariant
            es == dag_edges(*graph),
            nodes == dag_nodes(*graph),
            n == nodes.len(),
            forall|e: int| 0 <= e < es.len() ==> 0 <= (#[trigger] es[e]).0 < n && 0 <= es[e].1 < n,
            t < n,
            len == ps@.len(),
            ps@.map_values(|x: usize| x as int) == successors(es, t as int),
            list == parents_of(es, t as int),
            i <= len,
            seen@.len() == n,
            forall|k: int| 0 <= k < n ==> #[trigger] seen@[k] == ints(done@).contains(k),
            forall|k: int| 0 <= k < done@.len() ==> #[trigger] done@[k] < n,
            merge_order(n as nat, es, t as int) == merge_visit_from(es, n as nat, list, i as int, ints(done@)),
        decreases len - i,
    {
        let w = ps[len - 1 - i];
        proof {
            assert(ps@.map_values(|x: usize| x as int)[len - 1 - i] == w as int);
            assert(list[i as int] == w as int);
            lemma_successor_bound(es, t as int, es.len() as int, n as int, (len - 1 - i) as int);
        }
        let ghost before = ints(done@);
        merge_walk(graph, n, n, w, &mut done, &mut seen);
        proof {
            assert(merge_visit_from(es, n as nat, list, i as int, before) == merge_visit_from(
                es,
                n as nat,
                list,
                i + 1,
                merge_visit(es, n as nat, list[i as int], before),
            ));
        }
        i = i + 1;
    }
    let mut out: Vec<String> = Vec::new();
    let mut j: usize = 0;
    while j < done.len()
        invariant
            nodes == dag_nodes(*graph),
            n == nodes.len(),
            forall|k: int| 0 <= k < done@.len() ==> #[trigger] done@[k] < n,
            j <= done@.len(),
            names_view(out) == path_names(nodes, ints(done@).take(j as int)),
        decreases done.len() - j,
    {
        let name = dag_node_name(graph, done[j]);
        let ghost pre = names_view(out);
        out.push(name.clone());
        proof {
            assert(names_view(out) =~= pre.push(name@));
            assert(path_names(nodes, ints(done@).take(j + 1)) =~= path_names(nodes, ints(done@).take(j as int)).push(
                nodes[done@[j as int] as int],
            ));
        }
        j = j + 1;
    }
    proof {
        assert(ints(done@).take(done@.len() as int) =~= ints(done@));
    }
    out
}
/// Each node of `d` comes after every node it has an edge to.
pub open spec fn parents_before(edges: Seq<(int, int)>, d: Seq<int>) -> bool {
    forall|k: int, w: int|
        0 <= k < d.len() && #[trigger] has_edge(edges, d[k], w) ==> exists|j: int| 0 <= j < k && d[j] == w
}

/// `a` is the start of `b`.
spec fn leads(a: Seq<int>, b: Seq<int>) -> bool {
    a.len() <= b.len() && forall|i: int| 0 <= i < a.len() ==> #[trigger] b[i] == a[i]
}

/// On a graph without cycles a walk over the `n` nodes repeats no node, so
/// it has at most `n` of them.
proof fn lemma_walk_short(edges: Seq<(int, int)>, n: nat, p: Seq<int>)
    requires
        !has_cycle(edges, n),
        is_walk(edges, p),
        forall|i: int| 0 <= i < p.len() ==> 0 <= #[trigger] p[i] < n,
    ensures
        p.len() <= n,
{
    assert(p.no_duplicates()) by {
        assert forall|i: int, j: int| 0 <= i < p.len() && 0 <= j < p.len() && i != j implies p[i] != p[j] by {
            if p[i] == p[j] {
                let (a, b) = if i < j {
                    (i, j)
                } else {
                    (j, i)
                };
                let q = p.subrange(a, b + 1);
                assert forall|k: int| 0 <= k < q.len() - 1 implies #[trigger] walk_step(edges, q, k) by {
                    assert(walk_step(edges, p, a + k));
                }
                assert(is_walk(edges, q));
                assert forall|k: int| 0 <= k < q.len() implies 0 <= #[trigger] q[k] < n by {
                    assert(q[k] == p[a + k]);
                }
                assert(q[0] == q.last());
            }
        }
    }
    p.unique_seq_to_set();
    vstd::set_lib::lemma_int_range(0, n as int);
    assert(p.to_set().subset_of(vstd::set_lib::set_int_range(0, n as int)));
    vstd::set_lib::lemma_len_subset(p.to_set(), vstd::set_lib::set_int_range(0, n as int));
}

proof fn lemma_parent_is_edge(edges: Seq<(int, int)>, v: int, j: int)
    requires
        0 <= j < parents_of(edges, v).len(),
    ensures
        has_edge(edges, v, parents_of(edges, v)[j]),
{
    let s = successors(edges, v);
    lemma_successor_is_edge(edges, v, edges.len() as int, s.len() - 1 - j);
}

proof fn lemma_edge_is_parent(edges: Seq<(int, int)>, v: int, w: int)
    requires
        has_edge(edges, v, w),
    ensures
        parents_of(edges, v).contains(w),
{
    let e = choose|e: int| 0 <= e < edges.len() && #[trigger] edges[e] == (v, w);
    lemma_edge_is_successor(edges, v, w, edges.len() as int, e);
    let s = successors(edges, v);
    let j = choose|j: int| 0 <= j < s.len() && #[trigger] s[j] == w;
    assert(parents_of(edges, v)[s.len() - 1 - j] == w);
}

proof fn lemma_visit_sound(edges: Seq<(int, int)>, n: nat, fuel: nat, v: int, done: Seq<int>, path: Seq<int>)
    requires
        forall|e: int| 0 <= e < edges.len() ==> 0 <= (#[trigger] edges[e]).0 < n && 0 <= edges[e].1 < n,
        !has_cycle(edges, n),
        is_walk(edges, path),
        path.last() == v,
        forall|i: int| 0 <= i < path.len() ==> 0 <= #[trigger] path[i] < n,
        path.len() + fuel == n + 2,
        parents_before(edges, done),
    ensures
        parents_before(edges, merge_visit(edges, fuel, v, done)),
        leads(done, merge_visit(edges, fuel, v, done)),
        merge_visit(edges, fuel, v, done).contains(v),
    decreases fuel, 0int, 0int,
{
    if !done.contains(v) {
        lemma_walk_short(edges, n, path);
        let list = parents_of(edges, v);
        assert forall|j: int| 0 <= j < list.len() implies has_edge(edges, path.last(), #[trigger] list[j]) by {
            lemma_parent_is_edge(edges, v, j);
        }
        lemma_visit_from_sound(edges, n, (fuel - 1) as nat, list, 0, done, path);
        let d1 = merge_visit_from(edges, (fuel - 1) as nat, list, 0, done);
        let r = d1.push(v);
        assert(r == merge_visit(edges, fuel, v, done));
        assert forall|k: int, w: int| 0 <= k < r.len() && #[trigger] has_edge(edges, r[k], w) implies exists|j: int|
            0 <= j < k && r[j] == w by {
            if k < d1.len() {
                assert(has_edge(edges, d1[k], w));
                let j = choose|j: int| 0 <= j < k && d1[j] == w;
                assert(r[j] == w);
            } else {
                lemma_edge_is_parent(edges, v, w);
                let a = choose|a: int| 0 <= a < list.len() && list[a] == w;
                assert(d1.contains(list[a]));
                let j = choose|j: int| 0 <= j < d1.len() && d1[j] == w;
                assert(r[j] == w);
            }
        }
        assert(r[d1.len() as int] == v);
    }
}

proof fn lemma_visit_from_sound(
    edges: Seq<(int, int)>,
    n: nat,
    fuel: nat,
    list: Seq<int>,
    i: int,
    done: Seq<int>,
    path: Seq<int>,
)
    requires
        forall|e: int| 0 <= e < edges.len() ==> 0 <= (#[trigger] edges[e]).0 < n && 0 <= edges[e].1 < n,
        !has_cycle(edges, n),
        is_walk(edges, path),
        forall|k: int| 0 <= k < path.len() ==> 0 <= #[trigger] path[k] < n,
        path.len() + 1 + fuel == n + 2,
        forall|j: int| 0 <= j < list.len() ==> has_edge(edges, path.last(), #[trigger] list[j]),
        0 <= i <= list.len(),
        parents_before(edges, done),
    ensures
        parents_before(edges, merge_visit_from(edges, fuel, list, i, done)),
        leads(done, merge_visit_from(edges, fuel, list, i, done)),
        forall|j: int| i <= j < list.len() ==> merge_visit_from(edges, fuel, list, i, done).contains(#[trigger] list[j]),
    decreases fuel, 1int, list.len() - i,
{
    if i < list.len() {
        let w = list[i];
        assert(has_edge(edges, path.last(), w));
        let e = choose|e: int| 0 <= e < edges.len() && #[trigger] edges[e] == (path.last(), w);
        lemma_walk_extend(edges, path, w);
        let p2 = path.push(w);
        assert forall|k: int| 0 <= k < p2.len() implies 0 <= #[trigger] p2[k] < n by {
            if k < path.len() {
                assert(p2[k] == path[k]);
            }
        }
        lemma_visit_sound(edges, n, fuel, w, done, p2);
        let d1 = merge_visit(edges, fuel, w, done);
        lemma_visit_from_sound(edges, n, fuel, list, i + 1, d1, path);
        let r = merge_visit_from(edges, fuel, list, i + 1, d1);
        assert(r == merge_visit_from(edges, fuel, list, i, done));
        assert forall|j: int| i <= j < list.len() implies r.contains(#[trigger] list[j]) by {
            if j == i {
                let k = choose|k: int| 0 <= k < d1.len() && d1[k] == w;
                assert(r[k] == w);
            }
        }
    }
}

/// Ancestors come parents first: on a graph without cycles, every parent of
/// `t` is listed in merge order, and every template listed comes after each
/// template it extends.
pub proof fn lemma_merge_order_parents_first(n: nat, edges: Seq<(int, int)>, t: int)
    requires
        forall|e: int| 0 <= e < edges.len() ==> 0 <= (#[trigger] edges[e]).0 < n && 0 <= edges[e].1 < n,
        0 <= t < n,
        !has_cycle(edges, n),
    ensures
        forall|w: int| #[trigger] has_edge(edges, t, w) ==> merge_order(n, edges, t).contains(w),
        parents_before(edges, merge_order(n, edges, t)),
{
    let list = parents_of(edges, t);
    let path = seq![t];
    assert(is_walk(edges, path));
    assert forall|j: int| 0 <= j < list.len() implies has_edge(edges, path.last(), #[trigger] list[j]) by {
        lemma_parent_is_edge(edges, t, j);
    }
    lemma_visit_from_sound(edges, n, n, list, 0, Seq::empty(), path);
    assert forall|w: int| #[trigger] has_edge(edges, t, w) implies merge_order(n, edges, t).contains(w) by {
        lemma_edge_is_parent(edges, t, w);
        let a = choose|a: int| 0 <= a < list.len() && list[a] == w;
        assert(merge_order(n, edges, t).contains(list[a]));
    }
}

/// Return the ancestors of a template in merge order (parents first): every
/// template it reaches through `$extends`, itself excluded, each listed after
/// the templates it extends, the template's own parents in declaration
/// order.  For `t` extending `[a, b]` where `a` extends `c`: `[c, a, b]`.
pub fn ancestor_order(graph: &DiGraph<String, ()>, node_map: &NodeMap, template_name: &str) -> (r: Result<Vec<String>, DagError>)
    requires
        node_map@.len() <= dag_nodes(*graph).len(),
    ensures
        !node_map@.contains(template_name@) ==> (r matches Err(DagError::NotInDag { template })
            && template@ == template_name@),
        node_map@.contains(template_name@) ==> match ancestor_nodes(
            dag_nodes(*graph).len(),
            dag_edges(*graph),
            first_index(node_map@, template_name@),
        ) {
            Some(vs) => r is Ok && names_view(r->Ok_0) == path_names(dag_nodes(*graph), vs),
            None => r matches Err(DagError::UnexpectedCycle),
        },
{
    let ghost es = dag_edges(*graph);
    let ghost nodes = dag_nodes(*graph);
    let t = match node_map.get(template_name) {
        None => {
            return Err(DagError::NotInDag { template: string_of(template_name) });
        },
        Some(t) => t,
    };
    let n = dag_node_count(graph);
    let any = any_ancestor(graph, t);
    if !any {
        assert(!has_ancestor(n as int, es, t as int));
        let empty: Vec<String> = Vec::new();
        assert(names_view(empty) =~= path_names(nodes, Seq::<int>::empty()));
        return Ok(empty);
    }
    match dag_toposort(graph) {
        Err(_) => Err(DagError::UnexpectedCycle),
        Ok(_) => Ok(merge_order_names(graph, t)),
    }
}

} // verus!
