//! Producing the permissions file from templates and agent files: resolving
//! every agent, laying out the document, and holding a parsed document
//! against what was resolved.

use indexmap::IndexMap;
use petgraph::graph::DiGraph;
use vstd::prelude::*;
use vstd::string::*;

use crate::jsonc_writer::{
    agent_block_lines, assemble_document, document_lines, format_agent_block, indent, indent_text, joined, texts,
};
use crate::maps::{
    baseline_map_entries, bm_get, gm_get_index, gm_len, group_entries, has_key, insert_entry, key_pos, keys_distinct,
    lemma_insert_distinct, lemma_key_pos, lookup, names_view, om_get, override_entries, perm_entries, sot_entries,
    sot_get, sot_get_index, sot_insert, sot_len, sot_new, template_entries, tm_get,
};
use crate::models::{
    is_simple_category, simple_categories, BashPermission, CategoryMap, Override, Sot, SotAgent, SotPermission,
    Template,
};
use crate::resolver::{
    baseline_resolution_view, perm_view, resolution_view, resolve, resolve_with_baseline, Entries, PermView,
    ResolveError,
};
use crate::template_dag::{
    build_dag, has_cycle, reports_cycle, dag_edges, dag_nodes, detect_cycles, inheritance_edges, parents_total, topo_order,
    DagError,
};
use crate::maps::keys_of;
use crate::validator::{
    agreeing, baseline_failure_is, blocks_agree, check_agent, check_agents, check_categories, compare_permissions,
    compute_effective_baselines, effective_all, lemma_agreeing_concat, lemma_agreeing_push, opt_debug, opt_debug_text,
    AgentFailure, BaselineError, Checked,
};
use crate::text::{debug_quoted, debug_str, string_of, usize_text, decimal};

verus! {

// ---------------------------------------------------------------------------
// Resolving every agent
// ---------------------------------------------------------------------------

/// Why producing the permissions file stopped.
#[derive(Debug, Clone)]
pub enum PermissionsError {
    /// The inheritance graph cannot be built or has a cycle.
    Dag(DagError),
    /// An effective baseline cannot be computed.
    Baseline(BaselineError),
    /// A category has no loaded template.
    NoTemplate(String),
    /// An agent has no loaded agent file.
    NoOverride(String),
    /// Resolving an agent failed.
    Resolve { agent: String, error: ResolveError },
}

/// The error `e` reports the per-agent failure `f`.
pub open spec fn permissions_failure_is(e: PermissionsError, f: AgentFailure) -> bool {
    match f {
        AgentFailure::NoTemplate(c) => e matches PermissionsError::NoTemplate(x) && x@ == c,
        AgentFailure::NoOverride(a) => e matches PermissionsError::NoOverride(x) && x@ == a,
        AgentFailure::Resolve(a, err) => e matches PermissionsError::Resolve { agent, error } && agent@ == a
            && error == err,
        AgentFailure::NotInSot(_) => false,
    }
}

/// The agents of a permissions file with the content of their blocks.
pub open spec fn sot_views(s: Seq<(Seq<char>, SotAgent)>) -> Seq<(Seq<char>, PermView)> {
    s.map_values(|e: (Seq<char>, SotAgent)| (e.0, perm_view(e.1.permission)))
}

/// Resolve one agent of category `cat`: against the category's effective
/// baseline when it has one, else against its template.
pub open spec fn resolve_agent(
    t: Template,
    ovs: Seq<(Seq<char>, Override)>,
    eff: Seq<(Seq<char>, Entries)>,
    cat: Seq<char>,
    agent: Seq<char>,
) -> Result<PermView, AgentFailure> {
    match lookup(ovs, agent) {
        None => Err(AgentFailure::NoOverride(agent)),
        Some(o) => {
            let res = if has_key(eff, cat) {
                baseline_resolution_view(lookup(eff, cat)->0, cat, o)
            } else {
                resolution_view(t, o)
            };
            match res {
                Err(e) => Err(AgentFailure::Resolve(agent, e)),
                Ok(pv) => Ok(pv),
            }
        },
    }
}

/// Resolve the first `k` agents of a category in order, recording each
/// under its name in `acc`.
pub open spec fn resolve_agents(
    acc: Seq<(Seq<char>, PermView)>,
    t: Template,
    ovs: Seq<(Seq<char>, Override)>,
    eff: Seq<(Seq<char>, Entries)>,
    cat: Seq<char>,
    agents: Seq<Seq<char>>,
    k: int,
) -> Result<Seq<(Seq<char>, PermView)>, AgentFailure>
    decreases k,
{
    if k <= 0 {
        Ok(acc)
    } else {
        match resolve_agents(acc, t, ovs, eff, cat, agents, k - 1) {
            Err(f) => Err(f),
            Ok(a) => match resolve_agent(t, ovs, eff, cat, agents[k - 1]) {
                Err(f) => Err(f),
                Ok(pv) => Ok(insert_entry(a, agents[k - 1], pv)),
            },
        }
    }
}

/// Resolve the agents of the first `k` categories, in order; a category
/// without a template fails.
pub open spec fn resolve_categories(
    gs: Seq<(Seq<char>, Seq<Seq<char>>)>,
    ts: Seq<(Seq<char>, Template)>,
    ovs: Seq<(Seq<char>, Override)>,
    eff: Seq<(Seq<char>, Entries)>,
    k: int,
) -> Result<Seq<(Seq<char>, PermView)>, AgentFailure>
    decreases k,
{
    if k <= 0 {
        Ok(Seq::empty())
    } else {
        match resolve_categories(gs, ts, ovs, eff, k - 1) {
            Err(f) => Err(f),
            Ok(acc) => match lookup(ts, gs[k - 1].0) {
                None => Err(AgentFailure::NoTemplate(gs[k - 1].0)),
                Some(t) => resolve_agents(acc, t, ovs, eff, gs[k - 1].0, gs[k - 1].1, gs[k - 1].1.len() as int),
            },
        }
    }
}

proof fn lemma_views_distinct(s: Seq<(Seq<char>, SotAgent)>)
    requires
        keys_distinct(s),
    ensures
        keys_distinct(sot_views(s)),
{
    let v = sot_views(s);
    assert forall|i: int, j: int| 0 <= i < v.len() && 0 <= j < v.len() && i != j implies #[trigger] v[i].0
        != #[trigger] v[j].0 by {
        assert(v[i].0 == s[i].0);
        assert(v[j].0 == s[j].0);
    }
}

proof fn lemma_views_insert(s: Seq<(Seq<char>, SotAgent)>, k: Seq<char>, a: SotAgent)
    requires
        keys_distinct(s),
    ensures
        sot_views(insert_entry(s, k, a)) == insert_entry(sot_views(s), k, perm_view(a.permission)),
{
    let v = sot_views(s);
    lemma_views_distinct(s);
    if has_key(s, k) {
        let p = key_pos(s, k);
        assert(s[p].0 == k);
        assert(v[p].0 == k);
        lemma_key_pos(v, k, p);
        lemma_key_pos(s, k, p);
        assert(sot_views(s.update(p, (k, a))) =~= v.update(p, (k, perm_view(a.permission))));
    } else {
        if has_key(v, k) {
            let q = key_pos(v, k);
            assert(s[q].0 == v[q].0);
        }
        assert(sot_views(s.push((k, a))) =~= v.push((k, perm_view(a.permission))));
    }
}

proof fn lemma_resolve_agents_err_stays(
    acc: Seq<(Seq<char>, PermView)>,
    t: Template,
    ovs: Seq<(Seq<char>, Override)>,
    eff: Seq<(Seq<char>, Entries)>,
    cat: Seq<char>,
    agents: Seq<Seq<char>>,
    a: int,
    b: int,
)
    requires
        0 <= a <= b,
        resolve_agents(acc, t, ovs, eff, cat, agents, a) is Err,
    ensures
        resolve_agents(acc, t, ovs, eff, cat, agents, b) == resolve_agents(acc, t, ovs, eff, cat, agents, a),
    decreases b - a,
{
    if a < b {
        lemma_resolve_agents_err_stays(acc, t, ovs, eff, cat, agents, a, b - 1);
    }
}

proof fn lemma_resolve_categories_err_stays(
    gs: Seq<(Seq<char>, Seq<Seq<char>>)>,
    ts: Seq<(Seq<char>, Template)>,
    ovs: Seq<(Seq<char>, Override)>,
    eff: Seq<(Seq<char>, Entries)>,
    a: int,
    b: int,
)
    requires
        0 <= a <= b,
        resolve_categories(gs, ts, ovs, eff, a) is Err,
    ensures
        resolve_categories(gs, ts, ovs, eff, b) == resolve_categories(gs, ts, ovs, eff, a),
    decreases b - a,
{
    if a < b {
        lemma_resolve_categories_err_stays(gs, ts, ovs, eff, a, b - 1);
    }
}

fn resolve_one(
    template: &Template,
    overrides: &IndexMap<String, Override>,
    effective: &IndexMap<String, IndexMap<String, String>>,
    cat: &str,
    agent: &str,
) -> (r: Result<SotPermission, PermissionsError>)
    ensures
        match resolve_agent(*template, override_entries(*overrides), baseline_map_entries(*effective), cat@, agent@) {
            Ok(pv) => r is Ok && perm_view(r->Ok_0) == pv,
            Err(f) => r is Err && permissions_failure_is(r->Err_0, f),
        },
{
    let o = match om_get(overrides, agent) {
        None => {
            return Err(PermissionsError::NoOverride(string_of(agent)));
        },
        Some(o) => o,
    };
    let resolved = match bm_get(effective, cat) {
        Some(eff) => resolve_with_baseline(eff, cat, o),
        None => resolve(template, o),
    };
    match resolved {
        Err(e) => Err(PermissionsError::Resolve { agent: string_of(agent), error: e }),
        Ok(r) => Ok(r.permission),
    }
}

/// Resolve one category's agents into `sot`.
fn resolve_category(
    template: &Template,
    overrides: &IndexMap<String, Override>,
    effective: &IndexMap<String, IndexMap<String, String>>,
    cat: &str,
    agents: &Vec<String>,
    sot: &mut Sot,
) -> (r: Result<(), PermissionsError>)
    requires
        keys_distinct(sot_entries(*old(sot))),
    ensures
        keys_distinct(sot_entries(*final(sot))),
        match resolve_agents(
            sot_views(sot_entries(*old(sot))),
            *template,
            override_entries(*overrides),
            baseline_map_entries(*effective),
            cat@,
            names_view(*agents),
            agents@.len() as int,
        ) {
            Ok(acc) => r is Ok && sot_views(sot_entries(*final(sot))) == acc,
            Err(f) => r is Err && permissions_failure_is(r->Err_0, f),
        },
{
    let ghost acc0 = sot_views(sot_entries(*sot));
    let ghost ovs = override_entries(*overrides);
    let ghost eff = baseline_map_entries(*effective);
    let ghost av = names_view(*agents);
    let mut k: usize = 0;
    while k < agents.len()
        invariant
            acc0 == sot_views(sot_entries(*old(sot))),
            ovs == override_entries(*overrides),
            eff == baseline_map_entries(*effective),
            av == names_view(*agents),
            k <= agents@.len(),
            keys_distinct(sot_entries(*sot)),
            resolve_agents(acc0, *template, ovs, eff, cat@, av, k as int) is Ok,
            sot_views(sot_entries(*sot)) == resolve_agents(acc0, *template, ovs, eff, cat@, av, k as int)->Ok_0,
        decreases agents.len() - k,
    {
        let agent = &agents[k];
        assert(av[k as int] == agent@);
        match resolve_one(template, overrides, effective, cat, agent.as_str()) {
            Err(e) => {
                proof {
                    lemma_resolve_agents_err_stays(acc0, *template, ovs, eff, cat@, av, k + 1, agents@.len() as int);
                }
                return Err(e);
            },
            Ok(p) => {
                let ghost before = sot_entries(*sot);
                let entry = SotAgent { permission: p };
                let ghost pv = perm_view(entry.permission);
                sot_insert(sot, agent.clone(), entry);
                proof {
                    lemma_insert_distinct(before, agent@, entry);
                    lemma_views_insert(before, agent@, entry);
                }
            },
        }
        k = k + 1;
    }
    Ok(())
}

fn resolve_categories_exec(
    categories: &CategoryMap,
    templates: &IndexMap<String, Template>,
    overrides: &IndexMap<String, Override>,
    effective: &IndexMap<String, IndexMap<String, String>>,
) -> (r: Result<Sot, PermissionsError>)
    ensures
        ({
            let gs = group_entries(*categories);
            match resolve_categories(
                gs,
                template_entries(*templates),
                override_entries(*overrides),
                baseline_map_entries(*effective),
                gs.len() as int,
            ) {
                Ok(acc) => r is Ok && sot_views(sot_entries(r->Ok_0)) == acc,
                Err(f) => r is Err && permissions_failure_is(r->Err_0, f),
            }
        }),
{
    let ghost gs = group_entries(*categories);
    let ghost ts = template_entries(*templates);
    let ghost ovs = override_entries(*overrides);
    let ghost eff = baseline_map_entries(*effective);
    let mut sot = sot_new();
    proof {
        assert(sot_views(sot_entries(sot)) =~= Seq::<(Seq<char>, PermView)>::empty());
    }
    let nc = gm_len(categories);
    let mut c: usize = 0;
    while c < nc
        invariant
            gs == group_entries(*categories),
            ts == template_entries(*templates),
            ovs == override_entries(*overrides),
            eff == baseline_map_entries(*effective),
            nc == gs.len(),
            c <= nc,
            keys_distinct(sot_entries(sot)),
            resolve_categories(gs, ts, ovs, eff, c as int) is Ok,
            sot_views(sot_entries(sot)) == resolve_categories(gs, ts, ovs, eff, c as int)->Ok_0,
        decreases nc - c,
    {
        let (cat_name, agents) = gm_get_index(categories, c).unwrap();
        let template = match tm_get(templates, cat_name.as_str()) {
            None => {
                proof {
                    lemma_resolve_categories_err_stays(gs, ts, ovs, eff, c + 1, nc as int);
                }
                return Err(PermissionsError::NoTemplate(cat_name.clone()));
            },
            Some(t) => t,
        };
        match resolve_category(template, overrides, effective, cat_name.as_str(), agents, &mut sot) {
            Err(e) => {
                proof {
                    lemma_resolve_categories_err_stays(gs, ts, ovs, eff, c + 1, nc as int);
                }
                return Err(e);
            },
            Ok(()) => {},
        }
        c = c + 1;
    }
    Ok(sot)
}

/// Resolve every agent of every category, in category order: build the
/// inheritance graph, reject cycles, compute the effective baselines, and
/// resolve each agent against its category's effective baseline (or its
/// template when it has none).  Returns the resolved permissions by agent
/// name, in first-seen order, and the effective baselines.  `overrides`
/// holds the agent files by agent name.
pub fn resolve_all_agents(
    categories: &CategoryMap,
    templates: &IndexMap<String, Template>,
    overrides: &IndexMap<String, Override>,
) -> (r: Result<(Sot, IndexMap<String, IndexMap<String, String>>), PermissionsError>)
    requires
        template_entries(*templates).len() < u32::MAX,
        parents_total(template_entries(*templates), template_entries(*templates).len() as int)
            < u32::MAX,
    ensures
        ({
            let ts = template_entries(*templates);
            let names = keys_of(ts);
            match inheritance_edges(ts, ts.len() as int) {
                Err((i, p)) => r matches Err(PermissionsError::Dag(DagError::MissingParent { template, parent }))
                    && template@ == ts[i].0 && parent@ == p,
                Ok(es) => match topo_order(ts.len(), es) {
                    Err(c) => r matches Err(PermissionsError::Dag(DagError::Cycle { path }))
                        && reports_cycle(names, es, c, path@),
                    Ok(_) => match effective_all(ts, names, es, names, ts.len() as int) {
                        Err(f) => r matches Err(PermissionsError::Baseline(e)) && baseline_failure_is(e, f),
                        Ok(eff) => {
                            let gs = group_entries(*categories);
                            match resolve_categories(gs, ts, override_entries(*overrides), eff, gs.len() as int) {
                                Ok(acc) => r is Ok && sot_views(sot_entries(r->Ok_0.0)) == acc
                                    && baseline_map_entries(r->Ok_0.1) == eff,
                                Err(f) => r is Err && permissions_failure_is(r->Err_0, f),
                            }
                        },
                    },
                },
            }
        }),
        inheritance_edges(template_entries(*templates), template_entries(*templates).len() as int) matches Ok(es)
            ==> ((r matches Err(PermissionsError::Dag(DagError::Cycle { .. }))) <==> has_cycle(
            es,
            template_entries(*templates).len(),
        )),
{
    let (graph, node_map) = match build_dag(templates) {
        Err(e) => {
            return Err(PermissionsError::Dag(e));
        },
        Ok(g) => g,
    };
    match detect_cycles(&graph) {
        Err(e) => {
            return Err(PermissionsError::Dag(e));
        },
        Ok(()) => {},
    }
    let effective = match compute_effective_baselines(templates, &graph, &node_map) {
        Err(e) => {
            return Err(PermissionsError::Baseline(e));
        },
        Ok(m) => m,
    };
    match resolve_categories_exec(categories, templates, overrides, &effective) {
        Err(e) => Err(e),
        Ok(sot) => Ok((sot, effective)),
    }
}

// ---------------------------------------------------------------------------
// Laying out the document
// ---------------------------------------------------------------------------

/// How many agents the first `c` categories hold.
pub open spec fn agents_before(gs: Seq<(Seq<char>, Seq<Seq<char>>)>, c: int) -> nat
    decreases c,
{
    if c <= 0 {
        0
    } else {
        agents_before(gs, c - 1) + gs[c - 1].1.len()
    }
}

/// How many agents all categories hold.
pub open spec fn total_agents(gs: Seq<(Seq<char>, Seq<Seq<char>>)>) -> nat {
    agents_before(gs, gs.len() as int)
}

/// The texts of a list of line lists.
pub open spec fn line_lists(v: Seq<Vec<String>>) -> Seq<Seq<Seq<char>>> {
    v.map_values(|b: Vec<String>| names_view(b))
}

/// Lines indented by one level.
pub open spec fn indented(lines: Seq<Seq<char>>) -> Seq<Seq<char>> {
    lines.map_values(|l: Seq<char>| indent_text(1) + l)
}

/// The blocks of the first `k` agents of category `cat`, whose first agent
/// is agent number `start` of the file (counting from 0) among `total`:
/// each agent's block with its comment lines, its resolved permission, the
/// layout of its category, and no comma after the file's last agent.
pub open spec fn agent_blocks(
    sot: Seq<(Seq<char>, SotAgent)>,
    cat: Seq<char>,
    agents: Seq<Seq<char>>,
    comments: Seq<Seq<Seq<char>>>,
    start: nat,
    total: nat,
    k: int,
) -> Seq<Seq<char>>
    decreases k,
{
    if k <= 0 {
        Seq::empty()
    } else {
        agent_blocks(sot, cat, agents, comments, start, total, k - 1) + agent_block_lines(
            agents[k - 1],
            lookup(sot, agents[k - 1])->0.permission,
            comments[start + k - 1],
            simple_categories().contains(cat),
            start + k == total,
        )
    }
}

/// The block of category `c`: its header lines indented by one level, then
/// its agents' blocks.
pub open spec fn category_block(
    sot: Seq<(Seq<char>, SotAgent)>,
    gs: Seq<(Seq<char>, Seq<Seq<char>>)>,
    headers: Seq<Seq<Seq<char>>>,
    comments: Seq<Seq<Seq<char>>>,
    c: int,
) -> Seq<Seq<char>> {
    indented(headers[c]) + agent_blocks(
        sot,
        gs[c].0,
        gs[c].1,
        comments,
        agents_before(gs, c),
        total_agents(gs),
        gs[c].1.len() as int,
    )
}

/// The permissions document: the file header, then one block per category.
pub open spec fn permissions_document(
    header: Seq<Seq<char>>,
    sot: Seq<(Seq<char>, SotAgent)>,
    gs: Seq<(Seq<char>, Seq<Seq<char>>)>,
    headers: Seq<Seq<Seq<char>>>,
    comments: Seq<Seq<Seq<char>>>,
) -> Seq<char> {
    joined(document_lines(header, Seq::new(gs.len(), |c: int| category_block(sot, gs, headers, comments, c))))
}

proof fn lemma_agents_before_mono(gs: Seq<(Seq<char>, Seq<Seq<char>>)>, a: int, b: int)
    requires
        0 <= a <= b <= gs.len(),
    ensures
        agents_before(gs, a) <= agents_before(gs, b),
    decreases b - a,
{
    if a < b {
        lemma_agents_before_mono(gs, a, b - 1);
    }
}

/// The lines of one category block.
fn category_lines(
    sot: &Sot,
    cat: &str,
    agents: &Vec<String>,
    header: &Vec<String>,
    agent_comments: &[Vec<String>],
    start: usize,
    total: usize,
) -> (r: Vec<String>)
    requires
        start + agents@.len() <= total,
        total == agent_comments@.len(),
        forall|j: int| 0 <= j < agents@.len() ==> has_key(sot_entries(*sot), #[trigger] names_view(*agents)[j]),
    ensures
        names_view(r) == indented(names_view(*header)) + agent_blocks(
            sot_entries(*sot),
            cat@,
            names_view(*agents),
            line_lists(agent_comments@),
            start as nat,
            total as nat,
            agents@.len() as int,
        ),
{
    let ghost hs = indented(names_view(*header));
    let ghost av = names_view(*agents);
    let ghost cs = line_lists(agent_comments@);
    let mut lines: Vec<String> = Vec::new();
    let mut i: usize = 0;
    while i < header.len()
        invariant
            i <= header@.len(),
            hs == indented(names_view(*header)),
            names_view(lines) == hs.take(i as int),
        decreases header.len() - i,
    {
        let mut l = indent(1);
        l.append(header[i].as_str());
        let ghost pre = names_view(lines);
        lines.push(l);
        proof {
            assert(names_view(lines) =~= pre.push(l@));
            assert(hs.take(i + 1) =~= hs.take(i as int).push(l@));
        }
        i = i + 1;
    }
    proof {
        assert(hs.take(header@.len() as int) =~= hs);
    }
    let is_simple = is_simple_category(cat);
    let mut j: usize = 0;
    while j < agents.len()
        invariant
            j <= agents@.len(),
            start + agents@.len() <= total,
            total == agent_comments@.len(),
            hs == indented(names_view(*header)),
            av == names_view(*agents),
            cs == line_lists(agent_comments@),
            is_simple == simple_categories().contains(cat@),
            forall|x: int| 0 <= x < agents@.len() ==> has_key(sot_entries(*sot), #[trigger] av[x]),
            names_view(lines) == hs + agent_blocks(sot_entries(*sot), cat@, av, cs, start as nat, total as nat, j as int),
        decreases agents.len() - j,
    {
        let agent = &agents[j];
        assert(av[j as int] == agent@);
        assert(has_key(sot_entries(*sot), av[j as int]));
        let sa = sot_get(sot, agent.as_str()).unwrap();
        let is_last = start + j + 1 == total;
        let comments = agent_comments[start + j].as_slice();
        proof {
            assert(texts(comments@) =~= cs[start + j]);
        }
        let block = format_agent_block(agent.as_str(), &sa.permission, comments, is_simple, is_last);
        let ghost pre = names_view(lines);
        crate::jsonc_writer::push_all(&mut lines, &block);
        proof {
            assert(names_view(lines) =~= hs + agent_blocks(sot_entries(*sot), cat@, av, cs, start as nat, total as nat, j + 1));
        }
        j = j + 1;
    }
    lines
}

/// Lay out the permissions file: the file header lines, then for each
/// category its header lines (indented) and the block of each of its agents
/// with that agent's comment lines and resolved permission.  The agents'
/// comment lines are given in file order, one list per agent of each
/// category in turn; `category_headers` holds one list per category.
pub fn assemble_permissions(
    header: &[String],
    categories: &CategoryMap,
    sot: &Sot,
    category_headers: &[Vec<String>],
    agent_comments: &[Vec<String>],
) -> (r: String)
    requires
        category_headers@.len() == group_entries(*categories).len(),
        agent_comments@.len() == total_agents(group_entries(*categories)),
        forall|c: int, j: int|
            0 <= c < group_entries(*categories).len() && 0 <= j < group_entries(*categories)[c].1.len()
                ==> has_key(sot_entries(*sot), #[trigger] group_entries(*categories)[c].1[j]),
    ensures
        r@ == permissions_document(
            texts(header@),
            sot_entries(*sot),
            group_entries(*categories),
            line_lists(category_headers@),
            line_lists(agent_comments@),
        ),
{
    let ghost gs = group_entries(*categories);
    let ghost hs = line_lists(category_headers@);
    let ghost cs = line_lists(agent_comments@);
    let ghost want = Seq::new(gs.len(), |c: int| category_block(sot_entries(*sot), gs, hs, cs, c));
    let total = agent_comments.len();
    let nc = gm_len(categories);
    let mut blocks: Vec<Vec<String>> = Vec::new();
    let mut done: usize = 0;
    let mut c: usize = 0;
    while c < nc
        invariant
            gs == group_entries(*categories),
            hs == line_lists(category_headers@),
            cs == line_lists(agent_comments@),
            want == Seq::new(gs.len(), |i: int| category_block(sot_entries(*sot), gs, hs, cs, i)),
            nc == gs.len(),
            category_headers@.len() == nc,
            total == agent_comments@.len(),
            total == total_agents(gs),
            forall|x: int, j: int|
                0 <= x < gs.len() && 0 <= j < gs[x].1.len() ==> has_key(sot_entries(*sot), #[trigger] gs[x].1[j]),
            c <= nc,
            done == agents_before(gs, c as int),
            blocks@.len() == c,
            forall|i: int| 0 <= i < c ==> names_view(#[trigger] blocks@[i]) == want[i],
        decreases nc - c,
    {
        let (cat_name, agents) = gm_get_index(categories, c).unwrap();
        proof {
            lemma_agents_before_mono(gs, c + 1, nc as int);
            assert forall|j: int| 0 <= j < agents@.len() implies has_key(
                sot_entries(*sot),
                #[trigger] names_view(*agents)[j],
            ) by {
                assert(gs[c as int].1[j] == names_view(*agents)[j]);
            }
        }
        let lines = category_lines(sot, cat_name.as_str(), agents, &category_headers[c], agent_comments, done, total);
        proof {
            assert(hs[c as int] == names_view(category_headers@[c as int]));
            assert(names_view(lines) == want[c as int]);
        }
        blocks.push(lines);
        done = done + agents.len();
        c = c + 1;
    }
    proof {
        assert(line_lists(blocks@) =~= want);
    }
    assemble_document(header, blocks.as_slice())
}

// ---------------------------------------------------------------------------
// Holding a parsed document against what was resolved
// ---------------------------------------------------------------------------

/// The `{:?}` text of one table entry inside a map: `"key": "value"`.
pub open spec fn entry_debug(e: (Seq<char>, Seq<char>)) -> Seq<char> {
    debug_quoted(e.0) + ": "@ + debug_quoted(e.1)
}

/// The `{:?}` texts of the first `n` entries of a table, separated by
/// `", "`.
pub open spec fn entries_debug(es: Entries, n: int) -> Seq<char>
    decreases n,
{
    if n <= 0 {
        Seq::empty()
    } else if n == 1 {
        entry_debug(es[0])
    } else {
        entries_debug(es, n - 1) + ", "@ + entry_debug(es[n - 1])
    }
}

/// The `{:?}` text of a `bash` permission.
pub open spec fn bash_debug(b: crate::models::BashView) -> Seq<char> {
    match b {
        crate::models::BashView::Simple(s) => "Simple("@ + debug_quoted(s) + ")"@,
        crate::models::BashView::Detailed(es) => "Detailed({"@ + entries_debug(es, es.len() as int) + "})"@,
    }
}

/// The `{:?}` text of a permission block.
pub open spec fn permission_debug_text(p: PermView) -> Seq<char> {
    "SotPermission { write: "@ + opt_debug(p.0) + ", edit: "@ + opt_debug(p.1) + ", bash: "@ + bash_debug(p.2)
        + " }"@
}

/// The `{:?}` text of a permission block, as the derived `Debug` writes it.
pub fn permission_debug(p: &SotPermission) -> (r: String)
    ensures
        r@ == permission_debug_text(perm_view(*p)),
{
    proof {
        reveal_strlit("SotPermission { write: ");
        reveal_strlit(", edit: ");
        reveal_strlit(", bash: ");
        reveal_strlit(" }");
        reveal_strlit("Simple(");
        reveal_strlit(")");
        reveal_strlit("Detailed({");
        reveal_strlit("})");
        reveal_strlit(", ");
        reveal_strlit(": ");
    }
    let mut t = string_of("SotPermission { write: ");
    let w = opt_debug_text(&p.write);
    t.append(w.as_str());
    t.append(", edit: ");
    let e = opt_debug_text(&p.edit);
    t.append(e.as_str());
    t.append(", bash: ");
    let ghost before_bash = t@;
    match &p.bash {
        BashPermission::Simple(s) => {
            t.append("Simple(");
            let d = debug_str(s.as_str());
            t.append(d.as_str());
            t.append(")");
        },
        BashPermission::Detailed(m) => {
            t.append("Detailed({");
            let ghost es = perm_entries(*m);
            let ghost head = t@;
            let n = crate::maps::pm_len(m);
            let mut i: usize = 0;
            while i < n
                invariant
                    es == perm_entries(*m),
                    n == es.len(),
                    i <= n,
                    t@ == head + entries_debug(es, i as int),
                decreases n - i,
            {
                let (k, v) = crate::maps::pm_get_index(m, i).unwrap();
                if i > 0 {
                    t.append(", ");
                }
                let dk = debug_str(k.as_str());
                t.append(dk.as_str());
                t.append(": ");
                let dv = debug_str(v.as_str());
                t.append(dv.as_str());
                proof {
                    if i == 0 {
                        assert(entries_debug(es, 1) == entry_debug(es[0]));
                        assert(t@ =~= head + entries_debug(es, 1));
                    } else {
                        assert(t@ =~= head + entries_debug(es, i + 1));
                    }
                }
                i = i + 1;
            }
            t.append("})");
        },
    }
    t.append(" }");
    proof {
        assert(t@ =~= permission_debug_text(perm_view(*p)));
    }
    t
}

/// Why a parsed permissions document does not hold what was resolved.
#[derive(Debug)]
pub enum SelfCheckError {
    /// The document holds another number of agents.
    CountMismatch { generated: usize, expected: usize },
    /// A resolved agent is missing from the document.
    MissingAgent(String),
    /// An agent's block in the document differs from its resolved block.
    PermissionMismatch { agent: String, resolved: SotPermission, parsed: SotPermission },
}

/// The failures of the check, by content.
pub enum SelfCheckFailure {
    CountMismatch(nat, nat),
    MissingAgent(Seq<char>),
    /// Agent, resolved block, parsed block.
    PermissionMismatch(Seq<char>, PermView, PermView),
}

/// The content of a check error.
pub open spec fn self_check_failure(e: SelfCheckError) -> SelfCheckFailure {
    match e {
        SelfCheckError::CountMismatch { generated, expected } => SelfCheckFailure::CountMismatch(
            generated as nat,
            expected as nat,
        ),
        SelfCheckError::MissingAgent(a) => SelfCheckFailure::MissingAgent(a@),
        SelfCheckError::PermissionMismatch { agent, resolved, parsed } => SelfCheckFailure::PermissionMismatch(
            agent@,
            perm_view(resolved),
            perm_view(parsed),
        ),
    }
}

/// The first of the first `k` resolved agents that the parsed document
/// lacks, or holds with another block.
pub open spec fn first_mismatch(
    parsed: Seq<(Seq<char>, SotAgent)>,
    expected: Seq<(Seq<char>, SotAgent)>,
    k: int,
) -> Option<SelfCheckFailure>
    decreases k,
{
    if k <= 0 {
        None
    } else {
        match first_mismatch(parsed, expected, k - 1) {
            Some(f) => Some(f),
            None => {
                let name = expected[k - 1].0;
                let want = perm_view(expected[k - 1].1.permission);
                match lookup(parsed, name) {
                    None => Some(SelfCheckFailure::MissingAgent(name)),
                    Some(pa) => if blocks_agree(perm_view(pa.permission), want) {
                        None
                    } else {
                        Some(SelfCheckFailure::PermissionMismatch(name, want, perm_view(pa.permission)))
                    },
                }
            },
        }
    }
}

/// What the check finds: another agent count, else the first resolved
/// agent that is missing or differs, else nothing.
pub open spec fn self_check(parsed: Seq<(Seq<char>, SotAgent)>, expected: Seq<(Seq<char>, SotAgent)>) -> Option<
    SelfCheckFailure,
> {
    if parsed.len() != expected.len() {
        Some(SelfCheckFailure::CountMismatch(parsed.len(), expected.len()))
    } else {
        first_mismatch(parsed, expected, expected.len() as int)
    }
}

/// The message of a check failure.
pub open spec fn self_check_text(f: SelfCheckFailure) -> Seq<char> {
    match f {
        SelfCheckFailure::CountMismatch(g, e) => "Self-validation: agent count mismatch: generated "@ + decimal(g)
            + " vs expected "@ + decimal(e),
        SelfCheckFailure::MissingAgent(a) => "Self-validation: agent '"@ + a + "' missing from generated output"@,
        SelfCheckFailure::PermissionMismatch(a, e, g) => "Self-validation: permission mismatch for agent '"@ + a
            + "'\n  Expected: "@ + permission_debug_text(e) + "\n  Got: "@ + permission_debug_text(g),
    }
}

impl SelfCheckError {
    /// The error's message.
    pub fn message(&self) -> (r: String)
        ensures
            r@ == self_check_text(self_check_failure(*self)),
    {
        match self {
            SelfCheckError::CountMismatch { generated, expected } => {
                proof {
                    reveal_strlit("Self-validation: agent count mismatch: generated ");
                    reveal_strlit(" vs expected ");
                }
                let mut t = string_of("Self-validation: agent count mismatch: generated ");
                let g = usize_text(*generated);
                t.append(g.as_str());
                t.append(" vs expected ");
                let e = usize_text(*expected);
                t.append(e.as_str());
                t
            },
            SelfCheckError::MissingAgent(a) => {
                proof {
                    reveal_strlit("Self-validation: agent '");
                    reveal_strlit("' missing from generated output");
                }
                let mut t = string_of("Self-validation: agent '");
                t.append(a.as_str());
                t.append("' missing from generated output");
                t
            },
            SelfCheckError::PermissionMismatch { agent, resolved, parsed } => {
                proof {
                    reveal_strlit("Self-validation: permission mismatch for agent '");
                    reveal_strlit("'\n  Expected: ");
                    reveal_strlit("\n  Got: ");
                }
                let mut t = string_of("Self-validation: permission mismatch for agent '");
                t.append(agent.as_str());
                t.append("'\n  Expected: ");
                let e = permission_debug(resolved);
                t.append(e.as_str());
                t.append("\n  Got: ");
                let g = permission_debug(parsed);
                t.append(g.as_str());
                t
            },
        }
    }
}

proof fn lemma_first_mismatch_some_stays(
    parsed: Seq<(Seq<char>, SotAgent)>,
    expected: Seq<(Seq<char>, SotAgent)>,
    a: int,
    b: int,
)
    requires
        0 <= a <= b,
        first_mismatch(parsed, expected, a) is Some,
    ensures
        first_mismatch(parsed, expected, b) == first_mismatch(parsed, expected, a),
    decreases b - a,
{
    if a < b {
        lemma_first_mismatch_some_stays(parsed, expected, a, b - 1);
    }
}

/// Hold a parsed permissions document against the resolved permissions:
/// the same number of agents, and every resolved agent present with an
/// equal block (tables compared as maps).  Reports the first difference.
pub fn check_generated(parsed: &Sot, expected: &Sot) -> (r: Result<(), SelfCheckError>)
    ensures
        match self_check(sot_entries(*parsed), sot_entries(*expected)) {
            None => r is Ok,
            Some(f) => r is Err && self_check_failure(r->Err_0) == f,
        },
{
    let ghost ps = sot_entries(*parsed);
    let ghost es = sot_entries(*expected);
    let np = sot_len(parsed);
    let ne = sot_len(expected);
    if np != ne {
        return Err(SelfCheckError::CountMismatch { generated: np, expected: ne });
    }
    let mut i: usize = 0;
    while i < ne
        invariant
            ps == sot_entries(*parsed),
            es == sot_entries(*expected),
            ne == es.len(),
            np == ps.len(),
            np == ne,
            i <= ne,
            first_mismatch(ps, es, i as int) is None,
        decreases ne - i,
    {
        let (name, ea) = sot_get_index(expected, i).unwrap();
        let pa = match sot_get(parsed, name.as_str()) {
            None => {
                proof {
                    lemma_first_mismatch_some_stays(ps, es, i + 1, ne as int);
                }
                return Err(SelfCheckError::MissingAgent(name.clone()));
            },
            Some(p) => p,
        };
        let outcome = compare_permissions(name.as_str(), "", &pa.permission, &ea.permission);
        if !outcome.passed {
            proof {
                lemma_first_mismatch_some_stays(ps, es, i + 1, ne as int);
            }
            return Err(
                SelfCheckError::PermissionMismatch {
                    agent: name.clone(),
                    resolved: ea.permission.copy(),
                    parsed: pa.permission.copy(),
                },
            );
        }
        i = i + 1;
    }
    Ok(())
}

/// A permissions file passes the check against itself: holding a document
/// that parses back to exactly the resolved permissions finds nothing.
pub proof fn lemma_self_check_accepts_same(s: Seq<(Seq<char>, SotAgent)>)
    requires
        keys_distinct(s),
        forall|i: int|
            0 <= i < s.len() ==> (#[trigger] s[i].1.permission.bash.bash_view() matches crate::models::BashView::Detailed(x)
                ==> keys_distinct(x)),
    ensures
        self_check(s, s) is None,
{
    lemma_first_mismatch_none_upto(s, s.len() as int);
}

proof fn lemma_first_mismatch_none_upto(s: Seq<(Seq<char>, SotAgent)>, k: int)
    requires
        keys_distinct(s),
        0 <= k <= s.len(),
        forall|i: int|
            0 <= i < s.len() ==> (#[trigger] s[i].1.permission.bash.bash_view() matches crate::models::BashView::Detailed(x)
                ==> keys_distinct(x)),
    ensures
        first_mismatch(s, s, k) is None,
    decreases k,
{
    if k > 0 {
        lemma_first_mismatch_none_upto(s, k - 1);
        lemma_key_pos(s, s[k - 1].0, k - 1);
        let p = perm_view(s[k - 1].1.permission);
        assert(s[k - 1].1.permission.bash.bash_view() matches crate::models::BashView::Detailed(x) ==> keys_distinct(x));
        crate::validator::lemma_blocks_agree_reflexive(p);
    }
}

// ---------------------------------------------------------------------------
// Round trip: what was resolved validates
// ---------------------------------------------------------------------------

/// No agent is listed twice, in one category or across categories.
pub open spec fn agents_unique(gs: Seq<(Seq<char>, Seq<Seq<char>>)>) -> bool {
    forall|c1: int, j1: int, c2: int, j2: int|
        0 <= c1 < gs.len() && 0 <= j1 < gs[c1].1.len() && 0 <= c2 < gs.len() && 0 <= j2 < gs[c2].1.len() && (c1
            != c2 || j1 != j2) ==> #[trigger] gs[c1].1[j1] != #[trigger] gs[c2].1[j2]
}

/// Every table of a permissions file holds each key once, as the maps it
/// is made of do.
pub open spec fn tables_distinct(s: Seq<(Seq<char>, SotAgent)>) -> bool {
    forall|i: int|
        0 <= i < s.len() ==> (#[trigger] s[i].1.permission.bash.bash_view() matches crate::models::BashView::Detailed(
            x,
        ) ==> keys_distinct(x))
}

proof fn lemma_resolve_agents_records(
    acc0: Seq<(Seq<char>, PermView)>,
    t: Template,
    ovs: Seq<(Seq<char>, Override)>,
    eff: Seq<(Seq<char>, Entries)>,
    cat: Seq<char>,
    agents: Seq<Seq<char>>,
    k: int,
)
    requires
        keys_distinct(acc0),
        0 <= k <= agents.len(),
        forall|a: int, b: int| 0 <= a < k && 0 <= b < k && a != b ==> agents[a] != agents[b],
        resolve_agents(acc0, t, ovs, eff, cat, agents, k) is Ok,
    ensures
        keys_distinct(resolve_agents(acc0, t, ovs, eff, cat, agents, k)->Ok_0),
        forall|j: int|
            0 <= j < k ==> resolve_agent(t, ovs, eff, cat, #[trigger] agents[j]) is Ok && lookup(
                resolve_agents(acc0, t, ovs, eff, cat, agents, k)->Ok_0,
                agents[j],
            ) == Some(resolve_agent(t, ovs, eff, cat, agents[j])->Ok_0),
        forall|key: Seq<char>|
            !agents.take(k).contains(key) ==> #[trigger] lookup(resolve_agents(acc0, t, ovs, eff, cat, agents, k)->Ok_0, key)
                == lookup(acc0, key),
    decreases k,
{
    if k > 0 {
        lemma_resolve_agents_records(acc0, t, ovs, eff, cat, agents, k - 1);
        let prev = resolve_agents(acc0, t, ovs, eff, cat, agents, k - 1)->Ok_0;
        let a = agents[k - 1];
        let pv = resolve_agent(t, ovs, eff, cat, a)->Ok_0;
        lemma_insert_distinct(prev, a, pv);
        let acc = resolve_agents(acc0, t, ovs, eff, cat, agents, k)->Ok_0;
        assert(acc == insert_entry(prev, a, pv));
        assert forall|j: int| 0 <= j < k implies resolve_agent(t, ovs, eff, cat, #[trigger] agents[j]) is Ok && lookup(
            acc,
            agents[j],
        ) == Some(resolve_agent(t, ovs, eff, cat, agents[j])->Ok_0) by {
            if j < k - 1 {
                assert(agents[j] != a);
            }
        }
        assert forall|key: Seq<char>| !agents.take(k).contains(key) implies #[trigger] lookup(acc, key) == lookup(
            acc0,
            key,
        ) by {
            assert(agents.take(k)[k - 1] == a);
            assert(key != a);
            if agents.take(k - 1).contains(key) {
                let q = choose|q: int| 0 <= q < k - 1 && #[trigger] agents.take(k - 1)[q] == key;
                assert(agents.take(k)[q] == key);
            }
            assert(!agents.take(k - 1).contains(key));
            assert(lookup(prev, key) == lookup(acc0, key));
            assert(lookup(insert_entry(prev, a, pv), key) == lookup(prev, key));
        }
    }
}

proof fn lemma_resolve_categories_records(
    gs: Seq<(Seq<char>, Seq<Seq<char>>)>,
    ts: Seq<(Seq<char>, Template)>,
    ovs: Seq<(Seq<char>, Override)>,
    eff: Seq<(Seq<char>, Entries)>,
    k: int,
)
    requires
        0 <= k <= gs.len(),
        agents_unique(gs),
        resolve_categories(gs, ts, ovs, eff, k) is Ok,
    ensures
        keys_distinct(resolve_categories(gs, ts, ovs, eff, k)->Ok_0),
        forall|c: int, j: int|
            0 <= c < k && 0 <= j < gs[c].1.len() ==> lookup(ts, gs[c].0) is Some && resolve_agent(
                lookup(ts, gs[c].0)->0,
                ovs,
                eff,
                gs[c].0,
                #[trigger] gs[c].1[j],
            ) is Ok && lookup(resolve_categories(gs, ts, ovs, eff, k)->Ok_0, gs[c].1[j]) == Some(
                resolve_agent(lookup(ts, gs[c].0)->0, ovs, eff, gs[c].0, gs[c].1[j])->Ok_0,
            ),
    decreases k,
{
    if k == 0 {
        assert(keys_distinct(Seq::<(Seq<char>, PermView)>::empty()));
    } else {
        lemma_resolve_categories_records(gs, ts, ovs, eff, k - 1);
        let prev = resolve_categories(gs, ts, ovs, eff, k - 1)->Ok_0;
        let t = lookup(ts, gs[k - 1].0)->0;
        let agents = gs[k - 1].1;
        assert forall|a: int, b: int| 0 <= a < agents.len() && 0 <= b < agents.len() && a != b implies agents[a]
            != agents[b] by {
            assert(gs[k - 1].1[a] != gs[k - 1].1[b]);
        }
        lemma_resolve_agents_records(prev, t, ovs, eff, gs[k - 1].0, agents, agents.len() as int);
        let acc = resolve_categories(gs, ts, ovs, eff, k)->Ok_0;
        assert forall|c: int, j: int| 0 <= c < k && 0 <= j < gs[c].1.len() implies lookup(ts, gs[c].0) is Some
            && resolve_agent(lookup(ts, gs[c].0)->0, ovs, eff, gs[c].0, #[trigger] gs[c].1[j]) is Ok && lookup(
            acc,
            gs[c].1[j],
        ) == Some(resolve_agent(lookup(ts, gs[c].0)->0, ovs, eff, gs[c].0, gs[c].1[j])->Ok_0) by {
            if c == k - 1 {
                assert(agents[j] == gs[c].1[j]);
            } else {
                let key = gs[c].1[j];
                assert(agents.take(agents.len() as int) =~= agents);
                if agents.contains(key) {
                    let q = choose|q: int| 0 <= q < agents.len() && agents[q] == key;
                    assert(gs[k - 1].1[q] == gs[c].1[j]);
                }
            }
        }
    }
}

proof fn lemma_views_lookup(s: Seq<(Seq<char>, SotAgent)>, a: Seq<char>, pv: PermView)
    requires
        keys_distinct(s),
        lookup(sot_views(s), a) == Some(pv),
    ensures
        has_key(s, a),
        perm_view(lookup(s, a)->0.permission) == pv,
        exists|i: int| 0 <= i < s.len() && #[trigger] s[i].0 == a && lookup(s, a)->0 == s[i].1,
{
    let v = sot_views(s);
    lemma_views_distinct(s);
    let i = key_pos(v, a);
    assert(v[i].0 == a);
    assert(s[i].0 == a);
    lemma_key_pos(v, a, i);
    lemma_key_pos(s, a, i);
}

proof fn lemma_check_agents_agree(
    s: Seq<(Seq<char>, SotAgent)>,
    gs: Seq<(Seq<char>, Seq<Seq<char>>)>,
    ts: Seq<(Seq<char>, Template)>,
    ovs: Seq<(Seq<char>, Override)>,
    eff: Seq<(Seq<char>, Entries)>,
    c: int,
    m: int,
)
    requires
        keys_distinct(s),
        tables_distinct(s),
        0 <= c < gs.len(),
        0 <= m <= gs[c].1.len(),
        lookup(ts, gs[c].0) is Some,
        forall|j: int|
            0 <= j < gs[c].1.len() ==> resolve_agent(lookup(ts, gs[c].0)->0, ovs, eff, gs[c].0, #[trigger] gs[c].1[j])
                is Ok && lookup(sot_views(s), gs[c].1[j]) == Some(
                resolve_agent(lookup(ts, gs[c].0)->0, ovs, eff, gs[c].0, gs[c].1[j])->Ok_0,
            ),
    ensures
        ({
            let r = check_agents(s, lookup(ts, gs[c].0)->0, ovs, eff, gs[c].0, gs[c].1, m);
            r is Ok && r->Ok_0.len() == m && agreeing(r->Ok_0, m) == m
        }),
    decreases m,
{
    if m > 0 {
        let t = lookup(ts, gs[c].0)->0;
        lemma_check_agents_agree(s, gs, ts, ovs, eff, c, m - 1);
        let prev = check_agents(s, t, ovs, eff, gs[c].0, gs[c].1, m - 1)->Ok_0;
        let a = gs[c].1[m - 1];
        let pv = resolve_agent(t, ovs, eff, gs[c].0, a)->Ok_0;
        lemma_views_lookup(s, a, pv);
        let i = choose|i: int| 0 <= i < s.len() && #[trigger] s[i].0 == a && lookup(s, a)->0 == s[i].1;
        assert(s[i].1.permission.bash.bash_view() matches crate::models::BashView::Detailed(x) ==> keys_distinct(x));
        crate::validator::lemma_blocks_agree_reflexive(pv);
        let ck = check_agent(s, t, ovs, eff, gs[c].0, a);
        assert(ck == Ok::<Checked, AgentFailure>((gs[c].0, a, pv, pv)));
        lemma_agreeing_push(prev, (gs[c].0, a, pv, pv), (m - 1));
    }
}

proof fn lemma_check_categories_agree(
    s: Seq<(Seq<char>, SotAgent)>,
    gs: Seq<(Seq<char>, Seq<Seq<char>>)>,
    ts: Seq<(Seq<char>, Template)>,
    ovs: Seq<(Seq<char>, Override)>,
    eff: Seq<(Seq<char>, Entries)>,
    k: int,
)
    requires
        keys_distinct(s),
        tables_distinct(s),
        0 <= k <= gs.len(),
        forall|c: int, j: int|
            0 <= c < gs.len() && 0 <= j < gs[c].1.len() ==> lookup(ts, gs[c].0) is Some && resolve_agent(
                lookup(ts, gs[c].0)->0,
                ovs,
                eff,
                gs[c].0,
                #[trigger] gs[c].1[j],
            ) is Ok && lookup(sot_views(s), gs[c].1[j]) == Some(
                resolve_agent(lookup(ts, gs[c].0)->0, ovs, eff, gs[c].0, gs[c].1[j])->Ok_0,
            ),
        forall|c: int| 0 <= c < gs.len() ==> lookup(ts, #[trigger] gs[c].0) is Some,
    ensures
        ({
            let r = check_categories(s, gs, ts, ovs, eff, k);
            r is Ok && agreeing(r->Ok_0, r->Ok_0.len() as int) == r->Ok_0.len()
        }),
    decreases k,
{
    if k > 0 {
        lemma_check_categories_agree(s, gs, ts, ovs, eff, k - 1);
        let c = k - 1;
        lemma_check_agents_agree(s, gs, ts, ovs, eff, c, gs[c].1.len() as int);
        let prev = check_categories(s, gs, ts, ovs, eff, k - 1)->Ok_0;
        let more = check_agents(s, lookup(ts, gs[c].0)->0, ovs, eff, gs[c].0, gs[c].1, gs[c].1.len() as int)->Ok_0;
        lemma_agreeing_concat(prev, more);
    }
}

/// Round trip: validating the permissions resolved from the templates and
/// agent files against those same files passes for every agent, when no
/// agent is listed twice.
pub proof fn lemma_resolved_permissions_validate(
    s: Seq<(Seq<char>, SotAgent)>,
    gs: Seq<(Seq<char>, Seq<Seq<char>>)>,
    ts: Seq<(Seq<char>, Template)>,
    ovs: Seq<(Seq<char>, Override)>,
    eff: Seq<(Seq<char>, Entries)>,
)
    requires
        keys_distinct(s),
        tables_distinct(s),
        agents_unique(gs),
        resolve_categories(gs, ts, ovs, eff, gs.len() as int) is Ok,
        sot_views(s) == resolve_categories(gs, ts, ovs, eff, gs.len() as int)->Ok_0,
    ensures
        ({
            let r = check_categories(s, gs, ts, ovs, eff, gs.len() as int);
            r is Ok && agreeing(r->Ok_0, r->Ok_0.len() as int) == r->Ok_0.len()
        }),
{
    lemma_resolve_categories_records(gs, ts, ovs, eff, gs.len() as int);
    assert forall|c: int| 0 <= c < gs.len() implies lookup(ts, #[trigger] gs[c].0) is Some by {
        lemma_resolve_categories_some_prefix(gs, ts, ovs, eff, c + 1, gs.len() as int);
    }
    lemma_check_categories_agree(s, gs, ts, ovs, eff, gs.len() as int);
}

proof fn lemma_resolve_categories_some_prefix(
    gs: Seq<(Seq<char>, Seq<Seq<char>>)>,
    ts: Seq<(Seq<char>, Template)>,
    ovs: Seq<(Seq<char>, Override)>,
    eff: Seq<(Seq<char>, Entries)>,
    a: int,
    b: int,
)
    requires
        1 <= a <= b <= gs.len(),
        resolve_categories(gs, ts, ovs, eff, b) is Ok,
    ensures
        lookup(ts, gs[a - 1].0) is Some,
    decreases b - a,
{
    if a < b {
        lemma_resolve_categories_some_prefix(gs, ts, ovs, eff, a, b - 1);
    } else {
        if resolve_categories(gs, ts, ovs, eff, a - 1) is Err {
            lemma_resolve_categories_err_stays(gs, ts, ovs, eff, a - 1, a);
        }
    }
}

} // verus!
