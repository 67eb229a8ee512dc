//! Inspecting how one agent's permissions resolve: finding its category,
//! the lines that introduce it, its resolved permissions or the provenance
//! of each resolved entry.

use indexmap::IndexMap;
use petgraph::graph::DiGraph;
use vstd::prelude::*;
use vstd::string::*;

use crate::maps::{
    gm_get_index, gm_len, group_entries, has_key, keys_of, lookup, names_view, perm_entries, pm_clone, template_entries, tm_get,
};
use crate::models::{extends_parents, BashPermission, BashView, CategoryMap, Override, SotPermission, Template};
use crate::resolver::{
    apply_overrides, baseline_resolution_view, baseline_table, baseline_table_of, merge_baselines, merged_baseline,
    parents_view, perm_view, resolution_view, resolve, resolve_with_baseline, resolve_with_trace, traced_ok,
    PermissionSource, ResolveError, TracedPermission,
};
use crate::template_dag::{
    ancestor_nodes, ancestor_order, build_dag, has_cycle, reports_cycle, dag_edges, dag_nodes, detect_cycles, first_index,
    inheritance_edges, join_with, parents_total, path_names, topo_order, DagError, NodeMap,
};
use crate::text::{
    debug_quoted, debug_str, decimal, fields_view, json_pretty_block, pretty_block, str_eq, string_of, usize_text,
    JsonField, JsonFieldView,
};
use crate::validator::{baseline_failure_is, parent_baselines_of, parent_tables, BaselineError};

verus! {

/// Why inspecting an agent stopped.
#[derive(Debug, Clone)]
pub enum InspectError {
    /// The inheritance graph cannot be built, has a cycle, or cannot order
    /// the agent's ancestors.
    Dag(DagError),
    /// No category lists the agent.
    AgentNotFound(String),
    /// The agent's category has no loaded template.
    NoTemplate(String),
    /// An ancestor is missing, or a baseline is not a table of strings.
    Baseline(BaselineError),
    /// Resolving failed.
    Resolve(ResolveError),
}

// ---------------------------------------------------------------------------
// Finding the agent
// ---------------------------------------------------------------------------

/// The first of the first `n` categories whose agents include `agent`.
pub open spec fn first_category_of(gs: Seq<(Seq<char>, Seq<Seq<char>>)>, agent: Seq<char>, n: int) -> Option<
    Seq<char>,
>
    decreases n,
{
    if n <= 0 {
        None
    } else {
        match first_category_of(gs, agent, n - 1) {
            Some(c) => Some(c),
            None => if gs[n - 1].1.contains(agent) {
                Some(gs[n - 1].0)
            } else {
                None
            },
        }
    }
}

fn lists(agents: &Vec<String>, agent: &str) -> (r: bool)
    ensures
        r == names_view(*agents).contains(agent@),
{
    let mut i: usize = 0;
    while i < agents.len()
        invariant
            i <= agents@.len(),
            forall|j: int| 0 <= j < i ==> names_view(*agents)[j] != agent@,
        decreases agents.len() - i,
    {
        if str_eq(agents[i].as_str(), agent) {
            proof {
                assert(names_view(*agents)[i as int] == agent@);
            }
            return true;
        }
        i = i + 1;
    }
    false
}

proof fn lemma_first_category_some_stays(gs: Seq<(Seq<char>, Seq<Seq<char>>)>, agent: Seq<char>, a: int, b: int)
    requires
        0 <= a <= b,
        first_category_of(gs, agent, a) is Some,
    ensures
        first_category_of(gs, agent, b) == first_category_of(gs, agent, a),
    decreases b - a,
{
    if a < b {
        lemma_first_category_some_stays(gs, agent, a, b - 1);
    }
}

/// The first category, in map order, that lists `agent`.
pub fn find_category(categories: &CategoryMap, agent: &str) -> (r: Option<String>)
    ensures
        match first_category_of(group_entries(*categories), agent@, group_entries(*categories).len() as int) {
            Some(c) => r is Some && r->0@ == c,
            None => r is None,
        },
{
    let ghost gs = group_entries(*categories);
    let n = gm_len(categories);
    let mut i: usize = 0;
    while i < n
        invariant
            gs == group_entries(*categories),
            n == gs.len(),
            i <= n,
            first_category_of(gs, agent@, i as int) is None,
        decreases n - i,
    {
        let (cat, agents) = gm_get_index(categories, i).unwrap();
        if lists(agents, agent) {
            proof {
                lemma_first_category_some_stays(gs, agent@, i + 1, n as int);
            }
            return Some(cat.clone());
        }
        i = i + 1;
    }
    None
}

/// An agent's category with the inheritance graph of all templates.
pub struct AgentLocation {
    pub category: String,
    pub graph: DiGraph<String, ()>,
    pub node_map: NodeMap,
}

/// Build the inheritance graph, reject cycles, and find the agent's
/// category (the first that lists it), which must have a template.
pub fn locate_agent(categories: &CategoryMap, templates: &IndexMap<String, Template>, agent: &str) -> (r: Result<
    AgentLocation,
    InspectError,
>)
    requires
        template_entries(*templates).len() < u32::MAX,
        parents_total(template_entries(*templates), template_entries(*templates).len() as int)
            < u32::MAX,
    ensures
        ({
            let ts = template_entries(*templates);
            let names = keys_of(ts);
            let gs = group_entries(*categories);
            match inheritance_edges(ts, ts.len() as int) {
                Err((i, p)) => r matches Err(InspectError::Dag(DagError::MissingParent { template, parent }))
                    && template@ == ts[i].0 && parent@ == p,
                Ok(es) => match topo_order(ts.len(), es) {
                    Err(c) => r matches Err(InspectError::Dag(DagError::Cycle { path }))
                        && reports_cycle(names, es, c, path@),
                    Ok(_) => match first_category_of(gs, agent@, gs.len() as int) {
                        None => r matches Err(InspectError::AgentNotFound(a)) && a@ == agent@,
                        Some(c) => if has_key(ts, c) {
                            r is Ok && r->Ok_0.category@ == c && dag_nodes(r->Ok_0.graph) == names && dag_edges(
                                r->Ok_0.graph,
                            ) == es && r->Ok_0.node_map@ == names
                        } else {
                            r matches Err(InspectError::NoTemplate(x)) && x@ == c
                        },
                    },
                },
            }
        }),
        inheritance_edges(template_entries(*templates), template_entries(*templates).len() as int) matches Ok(es)
            ==> ((r matches Err(InspectError::Dag(DagError::Cycle { .. }))) <==> has_cycle(
            es,
            template_entries(*templates).len(),
        )),
{
    let (graph, node_map) = match build_dag(templates) {
        Err(e) => {
            return Err(InspectError::Dag(e));
        },
        Ok(g) => g,
    };
    match detect_cycles(&graph) {
        Err(e) => {
            return Err(InspectError::Dag(e));
        },
        Ok(()) => {},
    }
    let category = match find_category(categories, agent) {
        None => {
            return Err(InspectError::AgentNotFound(string_of(agent)));
        },
        Some(c) => c,
    };
    match tm_get(templates, category.as_str()) {
        None => Err(InspectError::NoTemplate(category)),
        Some(_) => Ok(AgentLocation { category, graph, node_map }),
    }
}

// ---------------------------------------------------------------------------
// The introduction
// ---------------------------------------------------------------------------

/// The lines that introduce an agent: its name, category and template file,
/// the parents its template inherits from (when it has any), and an empty
/// line.
pub open spec fn intro_text(agent: Seq<char>, category: Seq<char>, t: Template) -> Seq<Seq<char>> {
    seq!["Agent: "@ + agent, "Category: "@ + category, "Template: "@ + category + ".jsonc"@] + match t.extends {
        Some(e) => seq!["Inherits: "@ + join_with(extends_parents(e), ", "@)],
        None => Seq::empty(),
    } + seq![Seq::<char>::empty()]
}

fn join_parents(parents: &Vec<&str>) -> (r: String)
    ensures
        r@ == join_with(parents@.map_values(|p: &str| p@), ", "@),
{
    let ghost ps = parents@.map_values(|p: &str| p@);
    let mut out = String::new();
    let mut i: usize = 0;
    proof {
        reveal_strlit(", ");
        assert(out@ =~= join_with(ps.take(0), ", "@));
    }
    while i < parents.len()
        invariant
            ps == parents@.map_values(|p: &str| p@),
            i <= ps.len(),
            out@ == join_with(ps.take(i as int), ", "@),
        decreases parents.len() - i,
    {
        if i > 0 {
            out.append(", ");
        }
        out.append(parents[i]);
        proof {
            assert(ps.take(i + 1).drop_last() =~= ps.take(i as int));
            if i == 0 {
                assert(out@ =~= join_with(ps.take(1), ", "@));
            } else {
                assert(out@ =~= join_with(ps.take(i + 1), ", "@));
            }
        }
        i = i + 1;
    }
    proof {
        assert(ps.take(ps.len() as int) =~= ps);
    }
    out
}

/// The lines that introduce an agent of `category` with template
/// `template`.
pub fn intro_lines(agent: &str, category: &str, template: &Template) -> (r: Vec<String>)
    ensures
        names_view(r) == intro_text(agent@, category@, *template),
{
    proof {
        reveal_strlit("Agent: ");
        reveal_strlit("Category: ");
        reveal_strlit("Template: ");
        reveal_strlit(".jsonc");
        reveal_strlit("Inherits: ");
    }
    let mut lines: Vec<String> = Vec::new();
    let mut a = string_of("Agent: ");
    a.append(agent);
    let mut c = string_of("Category: ");
    c.append(category);
    let mut t = string_of("Template: ");
    t.append(category);
    t.append(".jsonc");
    lines.push(a);
    lines.push(c);
    lines.push(t);
    let ghost head = names_view(lines);
    proof {
        assert(head =~= seq![a@, c@, t@]);
    }
    match &template.extends {
        Some(e) => {
            let parents = e.parents();
            let mut line = string_of("Inherits: ");
            let joined = join_parents(&parents);
            line.append(joined.as_str());
            lines.push(line);
        },
        None => {},
    }
    let ghost mid = names_view(lines);
    lines.push(String::new());
    proof {
        assert(names_view(lines) =~= mid.push(Seq::<char>::empty()));
        assert(names_view(lines) =~= intro_text(agent@, category@, *template));
    }
    lines
}

// ---------------------------------------------------------------------------
// Resolving
// ---------------------------------------------------------------------------

/// What inspecting an agent produced: its entries with their sources, or
/// its resolved permissions.
#[derive(Debug, Clone)]
pub enum InspectOutcome {
    Traced(Vec<TracedPermission>),
    Resolved(SotPermission),
}

/// The agent's ancestors in merge order: none when its template has no
/// `$extends` (meaningful when the graph can order them).
pub open spec fn ancestry(nodes: Seq<Seq<char>>, edges: Seq<(int, int)>, nm: Seq<Seq<char>>, cat: Seq<char>, t: Template) -> Seq<
    Seq<char>,
> {
    if t.extends is Some {
        path_names(nodes, ancestor_nodes(nodes.len(), edges, first_index(nm, cat))->0)
    } else {
        Seq::empty()
    }
}

/// The entries of a traced resolution show the final entries `fin` in
/// order, each with its source.
pub open spec fn traced_all(
    v: Seq<TracedPermission>,
    ps: Seq<(Seq<char>, Seq<(Seq<char>, Seq<char>)>)>,
    own: Seq<(Seq<char>, Seq<char>)>,
    o: Override,
    cat: Seq<char>,
    fin: Seq<(Seq<char>, Seq<char>)>,
) -> bool {
    &&& v.len() == fin.len()
    &&& forall|i: int| 0 <= i < fin.len() ==> traced_ok(#[trigger] v[i], ps, own, o, cat, fin[i])
}

/// Resolve the located agent with its agent file: read the baselines of
/// its ancestors and of its template as tables, then either trace every
/// resolved entry to its source, or resolve its permissions (against the
/// merged baselines when its template has `$extends`, else against the
/// template).
pub fn inspect_agent(
    templates: &IndexMap<String, Template>,
    location: &AgentLocation,
    override_data: &Override,
    trace: bool,
) -> (r: Result<InspectOutcome, InspectError>)
    requires
        location.node_map@.len() <= dag_nodes(location.graph).len(),
        has_key(template_entries(*templates), location.category@),
    ensures
        ({
            let ts = template_entries(*templates);
            let cat = location.category@;
            let t = lookup(ts, cat)->0;
            let nodes = dag_nodes(location.graph);
            let edges = dag_edges(location.graph);
            let nm = location.node_map@;
            if t.extends is Some && !nm.contains(cat) {
                r matches Err(InspectError::Dag(DagError::NotInDag { template })) && template@ == cat
            } else if t.extends is Some && ancestor_nodes(nodes.len(), edges, first_index(nm, cat)) is None {
                r matches Err(InspectError::Dag(DagError::UnexpectedCycle))
            } else {
                let anc = ancestry(nodes, edges, nm, cat, t);
                match parent_tables(ts, anc, anc.len() as int) {
                    Err(f) => r matches Err(InspectError::Baseline(e)) && baseline_failure_is(e, f),
                    Ok(ps) => match baseline_table(t.baseline.permission) {
                        None => r matches Err(InspectError::Baseline(BaselineError::NotTable(x))) && x@ == cat,
                        Some(own) => if trace {
                            match merged_baseline(ps, own) {
                                Err((p, j, ex)) => r matches Err(
                                    InspectError::Resolve(ResolveError::Conflict { template, key, existing, parent, value, hint }),
                                ) && template@ == cat && key@ == ps[p].1[j].0 && existing@ == ex && parent@ == ps[p].0
                                    && value@ == ps[p].1[j].1 && !hint,
                                Ok(m) => r matches Ok(InspectOutcome::Traced(v)) && traced_all(
                                    v@,
                                    ps,
                                    own,
                                    *override_data,
                                    cat,
                                    apply_overrides(m, *override_data),
                                ),
                            }
                        } else if t.extends is Some {
                            match merged_baseline(ps, own) {
                                Err((p, j, ex)) => r matches Err(
                                    InspectError::Resolve(ResolveError::Conflict { template, key, existing, parent, value, hint }),
                                ) && template@ == cat && key@ == ps[p].1[j].0 && existing@ == ex && parent@ == ps[p].0
                                    && value@ == ps[p].1[j].1 && hint,
                                Ok(m) => match baseline_resolution_view(m, cat, *override_data) {
                                    Ok(pv) => r matches Ok(InspectOutcome::Resolved(x)) && perm_view(x) == pv,
                                    Err(e) => r matches Err(InspectError::Resolve(x)) && x == e,
                                },
                            }
                        } else {
                            match resolution_view(t, *override_data) {
                                Ok(pv) => r matches Ok(InspectOutcome::Resolved(x)) && perm_view(x) == pv,
                                Err(e) => r matches Err(InspectError::Resolve(x)) && x == e,
                            }
                        },
                    },
                }
            }
        }),
{
    let template = tm_get(templates, location.category.as_str()).unwrap();
    let category = location.category.as_str();
    let ancestors: Vec<String> = if template.extends.is_some() {
        match ancestor_order(&location.graph, &location.node_map, category) {
            Err(e) => {
                return Err(InspectError::Dag(e));
            },
            Ok(a) => a,
        }
    } else {
        let none: Vec<String> = Vec::new();
        proof {
            assert(names_view(none) =~= Seq::<Seq<char>>::empty());
        }
        none
    };
    let parents = match parent_baselines_of(templates, &ancestors) {
        Err(e) => {
            return Err(InspectError::Baseline(e));
        },
        Ok(p) => p,
    };
    let own = match baseline_table_of(&template.baseline.permission) {
        None => {
            return Err(InspectError::Baseline(BaselineError::NotTable(string_of(category))));
        },
        Some(m) => m,
    };
    if trace {
        match resolve_with_trace(parents.as_slice(), &own, category, override_data) {
            Err(e) => Err(InspectError::Resolve(e)),
            Ok(v) => Ok(InspectOutcome::Traced(v)),
        }
    } else if template.extends.is_some() {
        let effective = match merge_baselines(parents.as_slice(), &own, category) {
            Err(e) => {
                return Err(InspectError::Resolve(e));
            },
            Ok(m) => m,
        };
        match resolve_with_baseline(&effective, category, override_data) {
            Err(e) => Err(InspectError::Resolve(e)),
            Ok(p) => Ok(InspectOutcome::Resolved(p.permission)),
        }
    } else {
        match resolve(template, override_data) {
            Err(e) => Err(InspectError::Resolve(e)),
            Ok(p) => Ok(InspectOutcome::Resolved(p.permission)),
        }
    }
}

// ---------------------------------------------------------------------------
// The trace
// ---------------------------------------------------------------------------

/// Where an entry comes from, in words.
pub open spec fn source_text(s: PermissionSource) -> Seq<char> {
    match s {
        PermissionSource::Inherited(p) => "inherited from "@ + p@,
        PermissionSource::SelfBaseline(t) => "self baseline ("@ + t@ + ")"@,
        PermissionSource::AgentAdd(a) => "agent override: add ("@ + a@ + ")"@,
    }
}

/// The line of one traced entry: key and value as `{:?}` prints them, an
/// arrow, and the source.
pub open spec fn traced_line(t: TracedPermission) -> Seq<char> {
    "  "@ + debug_quoted(t.key@) + ": "@ + debug_quoted(t.value@) + "  \u{2190} "@ + source_text(t.source)
}

/// How many of the first `k` entries come from each kind of source:
/// parents, the template's own baseline, the agent's additions.
pub open spec fn source_counts(v: Seq<TracedPermission>, k: int) -> (nat, nat, nat)
    decreases k,
{
    if k <= 0 {
        (0, 0, 0)
    } else {
        let (i, s, a) = source_counts(v, k - 1);
        match v[k - 1].source {
            PermissionSource::Inherited(_) => (i + 1, s, a),
            PermissionSource::SelfBaseline(_) => (i, s + 1, a),
            PermissionSource::AgentAdd(_) => (i, s, a + 1),
        }
    }
}

/// The trace: a line per entry, an empty line, and the summary of sources.
pub open spec fn trace_text(v: Seq<TracedPermission>) -> Seq<Seq<char>> {
    let (i, s, a) = source_counts(v, v.len() as int);
    v.map_values(|t: TracedPermission| traced_line(t)) + seq![
        Seq::<char>::empty(),
        "Summary: "@ + decimal(v.len()) + " total entries"@,
        "  "@ + decimal(i) + " inherited from parent template(s)"@,
        "  "@ + decimal(s) + " from self baseline"@,
        "  "@ + decimal(a) + " from agent override (add)"@,
    ]
}

proof fn lemma_source_counts_bounded(v: Seq<TracedPermission>, k: int)
    requires
        0 <= k <= v.len(),
    ensures
        source_counts(v, k).0 + source_counts(v, k).1 + source_counts(v, k).2 == k,
    decreases k,
{
    if k > 0 {
        lemma_source_counts_bounded(v, k - 1);
    }
}

fn count_line(n: usize, what: &str) -> (r: String)
    ensures
        r@ == "  "@ + decimal(n as nat) + what@,
{
    proof {
        reveal_strlit("  ");
    }
    let mut t = string_of("  ");
    let d = usize_text(n);
    t.append(d.as_str());
    t.append(what);
    t
}

/// The lines that show a traced resolution.
pub fn trace_lines(traced: &[TracedPermission]) -> (r: Vec<String>)
    ensures
        names_view(r) == trace_text(traced@),
{
    proof {
        reveal_strlit("  ");
        reveal_strlit(": ");
        reveal_strlit("  \u{2190} ");
        reveal_strlit("inherited from ");
        reveal_strlit("self baseline (");
        reveal_strlit(")");
        reveal_strlit("agent override: add (");
        reveal_strlit("Summary: ");
        reveal_strlit(" total entries");
        reveal_strlit(" inherited from parent template(s)");
        reveal_strlit(" from self baseline");
        reveal_strlit(" from agent override (add)");
    }
    let ghost v = traced@;
    let ghost want = v.map_values(|t: TracedPermission| traced_line(t));
    let mut lines: Vec<String> = Vec::new();
    let mut inherited: usize = 0;
    let mut own: usize = 0;
    let mut added: usize = 0;
    let mut i: usize = 0;
    while i < traced.len()
        invariant
            v == traced@,
            want == v.map_values(|t: TracedPermission| traced_line(t)),
            i <= v.len(),
            names_view(lines) == want.take(i as int),
            (inherited as nat, own as nat, added as nat) == source_counts(v, i as int),
        decreases traced.len() - i,
    {
        proof {
            lemma_source_counts_bounded(v, i as int);
        }
        let e = &traced[i];
        let source = match &e.source {
            PermissionSource::Inherited(p) => {
                inherited = inherited + 1;
                let mut t = string_of("inherited from ");
                t.append(p.as_str());
                t
            },
            PermissionSource::SelfBaseline(tm) => {
                own = own + 1;
                let mut t = string_of("self baseline (");
                t.append(tm.as_str());
                t.append(")");
                t
            },
            PermissionSource::AgentAdd(a) => {
                added = added + 1;
                let mut t = string_of("agent override: add (");
                t.append(a.as_str());
                t.append(")");
                t
            },
        };
        let mut line = string_of("  ");
        let k = debug_str(e.key.as_str());
        line.append(k.as_str());
        line.append(": ");
        let val = debug_str(e.value.as_str());
        line.append(val.as_str());
        line.append("  \u{2190} ");
        line.append(source.as_str());
        let ghost pre = names_view(lines);
        lines.push(line);
        proof {
            assert(source@ == source_text(e.source));
            assert(names_view(lines) =~= pre.push(line@));
            assert(want.take(i + 1) =~= want.take(i as int).push(traced_line(v[i as int])));
        }
        i = i + 1;
    }
    let ghost body = names_view(lines);
    lines.push(String::new());
    let mut summary = string_of("Summary: ");
    let n = usize_text(traced.len());
    summary.append(n.as_str());
    summary.append(" total entries");
    lines.push(summary);
    let l1 = count_line(inherited, " inherited from parent template(s)");
    let l2 = count_line(own, " from self baseline");
    let l3 = count_line(added, " from agent override (add)");
    lines.push(l1);
    lines.push(l2);
    lines.push(l3);
    proof {
        assert(want.take(v.len() as int) =~= want);
        assert(names_view(lines) =~= body.push(Seq::<char>::empty()).push(summary@).push(l1@).push(l2@).push(l3@));
        assert(names_view(lines) =~= trace_text(v));
    }
    lines
}

// ---------------------------------------------------------------------------
// The resolved block as JSON
// ---------------------------------------------------------------------------

/// The fields shown for a resolved permission block: `write` and `edit`
/// where set, then `bash` as a string or as a table.
pub open spec fn resolved_fields(p: SotPermission) -> Seq<(Seq<char>, JsonFieldView)> {
    let bash = match p.bash.bash_view() {
        BashView::Simple(s) => JsonFieldView::Text(s),
        BashView::Detailed(t) => JsonFieldView::Table(t),
    };
    (if p.write is Some {
        seq![("write"@, JsonFieldView::Text(p.write->0@))]
    } else {
        Seq::empty()
    }) + (if p.edit is Some {
        seq![("edit"@, JsonFieldView::Text(p.edit->0@))]
    } else {
        Seq::empty()
    }) + seq![("bash"@, bash)]
}

/// The resolved permission block as the pretty-printed JSON object
/// `{"permission": {...}}`.
pub fn resolved_json(perm: &SotPermission) -> (r: String)
    ensures
        r@ == pretty_block("permission"@, resolved_fields(*perm)),
{
    proof {
        reveal_strlit("write");
        reveal_strlit("edit");
        reveal_strlit("bash");
    }
    let mut fields: Vec<(String, JsonField)> = Vec::new();
    if let Some(w) = &perm.write {
        fields.push((string_of("write"), JsonField::Text(w.clone())));
    }
    if let Some(e) = &perm.edit {
        fields.push((string_of("edit"), JsonField::Text(e.clone())));
    }
    let bash = match &perm.bash {
        BashPermission::Simple(s) => JsonField::Text(s.clone()),
        BashPermission::Detailed(m) => JsonField::Table(pm_clone(m)),
    };
    fields.push((string_of("bash"), bash));
    proof {
        assert(fields_view(fields@) =~= resolved_fields(*perm));
        assert("write"@[0] != "edit"@[0] && "write"@[0] != "bash"@[0] && "edit"@[0] != "bash"@[0]);
        assert forall|i: int, j: int| 0 <= i < j < fields@.len() implies fields@[i].0@ != fields@[j].0@ by {
            assert(fields_view(fields@)[i].0 == fields@[i].0@);
            assert(fields_view(fields@)[j].0 == fields@[j].0@);
        }
    }
    json_pretty_block("permission", &fields)
}

} // verus!
