//! Discovering the categories from the agent files' `$extends` fields, and
//! the order in which templates and their parents are loaded.

use indexmap::IndexMap;
use vstd::prelude::*;

use crate::maps::{
    gm_get_index, gm_insert, gm_len, gm_new, gm_push, gm_sort_keys, group_entries, has_key, insert_entry, key_pos,
    keys_distinct, keys_of, lemma_key_pos, lookup, names_view, pairs_view, push_to_group, template_entries, tm_len,
    tm_sort_keys,
};
use crate::models::{CategoryMap, Template};
use crate::order::{lemma_text_lt_total, sort_names, strictly_sorted, text_lt};
use crate::text::{str_eq, string_of};

verus! {

// ---------------------------------------------------------------------------
// Categories
// ---------------------------------------------------------------------------

/// The first `n` agents, each given as (agent name, category it extends),
/// grouped by category: categories in first-seen order, agents in input
/// order.
pub open spec fn raw_categories(agents: Seq<(Seq<char>, Seq<char>)>, n: int) -> Seq<(Seq<char>, Seq<Seq<char>>)>
    decreases n,
{
    if n <= 0 {
        Seq::empty()
    } else {
        push_to_group(raw_categories(agents, n - 1), agents[n - 1].1, agents[n - 1].0)
    }
}

/// The names are in non-decreasing order.
pub open spec fn names_sorted(s: Seq<Seq<char>>) -> bool {
    forall|i: int, j: int| 0 <= i < j < s.len() ==> !text_lt(#[trigger] s[j], #[trigger] s[i])
}

/// `r` is the grouping `raw` with its categories sorted by name and each
/// category's agents sorted.
pub open spec fn sorted_grouping(r: Seq<(Seq<char>, Seq<Seq<char>>)>, raw: Seq<(Seq<char>, Seq<Seq<char>>)>) -> bool {
    &&& strictly_sorted(keys_of(r))
    &&& keys_of(r).to_set() == keys_of(raw).to_set()
    &&& forall|i: int|
        0 <= i < r.len() ==> has_key(raw, #[trigger] r[i].0) && names_sorted(r[i].1) && r[i].1.to_multiset()
            == lookup(raw, r[i].0)->0.to_multiset()
}

fn copy_names(v: &Vec<String>) -> (r: Vec<String>)
    ensures
        names_view(r) == names_view(*v),
{
    let mut out: Vec<String> = Vec::new();
    let mut i: usize = 0;
    while i < v.len()
        invariant
            i <= v@.len(),
            names_view(out) == names_view(*v).take(i as int),
        decreases v.len() - i,
    {
        let ghost pre = names_view(out);
        let c = v[i].clone();
        out.push(c);
        proof {
            assert(names_view(out) =~= pre.push(c@));
            assert(names_view(*v).take(i + 1) =~= names_view(*v).take(i as int).push(v@[i as int]@));
        }
        i = i + 1;
    }
    proof {
        assert(names_view(*v).take(v@.len() as int) =~= names_view(*v));
    }
    out
}

/// Group agents by the category they extend, given each agent as
/// (agent name, category): the categories sorted by name, each with its
/// agents sorted.
pub fn group_agents(agents: &[(String, String)]) -> (r: CategoryMap)
    ensures
        sorted_grouping(group_entries(r), raw_categories(pairs_view(agents@), agents@.len() as int)),
{
    let ghost pv = pairs_view(agents@);
    let mut raw = gm_new();
    let mut i: usize = 0;
    while i < agents.len()
        invariant
            pv == pairs_view(agents@),
            i <= agents@.len(),
            group_entries(raw) == raw_categories(pv, i as int),
        decreases agents.len() - i,
    {
        let (name, cat) = &agents[i];
        gm_push(&mut raw, cat.clone(), name.clone());
        i = i + 1;
    }
    let ghost rs = group_entries(raw);
    let n = gm_len(&raw);
    let mut out = gm_new();
    let mut j: usize = 0;
    while j < n
        invariant
            rs == group_entries(raw),
            n == rs.len(),
            keys_distinct(rs),
            j <= n,
            group_entries(out).len() == j,
            forall|x: int|
                0 <= x < j ==> (#[trigger] group_entries(out)[x]).0 == rs[x].0 && names_sorted(
                    group_entries(out)[x].1,
                ) && group_entries(out)[x].1.to_multiset() == rs[x].1.to_multiset(),
        decreases n - j,
    {
        let (k, v) = gm_get_index(&raw, j).unwrap();
        let mut sv = copy_names(v);
        sort_names(&mut sv);
        let ghost before = group_entries(out);
        proof {
            if has_key(before, k@) {
                let q = key_pos(before, k@);
                assert(before[q].0 == rs[q].0);
                assert(rs[j as int].0 == k@);
            }
        }
        gm_insert(&mut out, k.clone(), sv);
        proof {
            assert(group_entries(out) == before.push((k@, names_view(sv))));
        }
        j = j + 1;
    }
    let ghost os = group_entries(out);
    gm_sort_keys(&mut out);
    let _len = gm_len(&out);
    proof {
        let fs = group_entries(out);
        fs.to_multiset_ensures();
        os.to_multiset_ensures();
        let raw_spec = raw_categories(pv, agents@.len() as int);
        assert(rs == raw_spec);
        assert forall|i: int| 0 <= i < fs.len() implies has_key(rs, #[trigger] fs[i].0) && names_sorted(fs[i].1)
            && fs[i].1.to_multiset() == lookup(rs, fs[i].0)->0.to_multiset() by {
            assert(fs.contains(fs[i]));
            assert(fs.to_multiset().count(fs[i]) > 0);
            assert(os.to_multiset().count(fs[i]) > 0);
            assert(os.contains(fs[i]));
            let x = choose|x: int| 0 <= x < os.len() && os[x] == fs[i];
            assert(os[x].0 == rs[x].0);
            lemma_key_pos(rs, rs[x].0, x);
        }
        assert forall|a: int, b: int| 0 <= a < b < keys_of(fs).len() implies text_lt(
            #[trigger] keys_of(fs)[a],
            #[trigger] keys_of(fs)[b],
        ) by {
            assert(!text_lt(fs[b].0, fs[a].0));
            lemma_text_lt_total(fs[a].0, fs[b].0);
        }
        assert forall|k: Seq<char>| keys_of(fs).to_set().contains(k) <==> keys_of(rs).to_set().contains(k) by {
            if keys_of(fs).to_set().contains(k) {
                let i = choose|i: int| 0 <= i < keys_of(fs).len() && keys_of(fs)[i] == k;
                assert(fs.contains(fs[i]));
                assert(fs.to_multiset().count(fs[i]) > 0);
                assert(os.to_multiset().count(fs[i]) > 0);
                assert(os.contains(fs[i]));
                let x = choose|x: int| 0 <= x < os.len() && os[x] == fs[i];
                assert(keys_of(rs)[x] == k);
            }
            if keys_of(rs).to_set().contains(k) {
                let x = choose|x: int| 0 <= x < keys_of(rs).len() && keys_of(rs)[x] == k;
                assert(os.contains(os[x]));
                assert(os.to_multiset().count(os[x]) > 0);
                assert(fs.to_multiset().count(os[x]) > 0);
                assert(fs.contains(os[x]));
                let i = choose|i: int| 0 <= i < fs.len() && fs[i] == os[x];
                assert(keys_of(fs)[i] == k);
            }
        }
        assert(keys_of(fs).to_set() =~= keys_of(rs).to_set());
    }
    out
}

// ---------------------------------------------------------------------------
// Loading templates with their parents
// ---------------------------------------------------------------------------

/// Take names off the top of the stack `stack`, dropping those already
/// loaded: the stack that is left and the first name not yet loaded, if
/// any.
pub open spec fn next_pending(stack: Seq<Seq<char>>, done: Seq<Seq<char>>) -> (Seq<Seq<char>>, Option<Seq<char>>)
    decreases stack.len(),
{
    if stack.len() == 0 {
        (stack, None)
    } else if done.contains(stack.last()) {
        next_pending(stack.drop_last(), done)
    } else {
        (stack.drop_last(), Some(stack.last()))
    }
}

/// The first `k` of `parents` that are not loaded yet, in order.
pub open spec fn unloaded(parents: Seq<Seq<char>>, done: Seq<Seq<char>>, k: int) -> Seq<Seq<char>>
    decreases k,
{
    if k <= 0 {
        Seq::empty()
    } else {
        unloaded(parents, done, k - 1) + if done.contains(parents[k - 1]) {
            Seq::<Seq<char>>::empty()
        } else {
            seq![parents[k - 1]]
        }
    }
}

/// Which templates are still to be loaded (a stack, the next on top) and
/// which are loaded.  Loading a template queues those of its parents that
/// are not loaded yet.
pub struct TemplateQueue {
    to_load: Vec<String>,
    loaded: Vec<String>,
}

impl TemplateQueue {
    /// The names still to load, the last on top.
    pub closed spec fn pending(&self) -> Seq<Seq<char>> {
        names_view(self.to_load)
    }

    /// The names loaded so far, in loading order.
    pub closed spec fn done(&self) -> Seq<Seq<char>> {
        names_view(self.loaded)
    }

    /// Start with the categories' templates to load (the last category on
    /// top) and nothing loaded.
    pub fn new(categories: &CategoryMap) -> (q: Self)
        ensures
            q.pending() == keys_of(group_entries(*categories)),
            q.done() == Seq::<Seq<char>>::empty(),
    {
        let ghost gs = group_entries(*categories);
        let n = gm_len(categories);
        let mut to_load: Vec<String> = Vec::new();
        let mut i: usize = 0;
        while i < n
            invariant
                gs == group_entries(*categories),
                n == gs.len(),
                i <= n,
                names_view(to_load) == keys_of(gs).take(i as int),
            decreases n - i,
        {
            let (k, _) = gm_get_index(categories, i).unwrap();
            let ghost pre = names_view(to_load);
            to_load.push(k.clone());
            proof {
                assert(names_view(to_load) =~= pre.push(k@));
                assert(keys_of(gs).take(i + 1) =~= keys_of(gs).take(i as int).push(gs[i as int].0));
            }
            i = i + 1;
        }
        proof {
            assert(keys_of(gs).take(n as int) =~= keys_of(gs));
        }
        let loaded: Vec<String> = Vec::new();
        proof {
            assert(names_view(loaded) =~= Seq::<Seq<char>>::empty());
        }
        TemplateQueue { to_load, loaded }
    }

    fn is_loaded(&self, name: &str) -> (r: bool)
        ensures
            r == self.done().contains(name@),
    {
        let mut i: usize = 0;
        while i < self.loaded.len()
            invariant
                i <= self.loaded@.len(),
                forall|j: int| 0 <= j < i ==> self.done()[j] != name@,
            decreases self.loaded.len() - i,
        {
            if str_eq(self.loaded[i].as_str(), name) {
                proof {
                    assert(self.done()[i as int] == name@);
                }
                return true;
            }
            i = i + 1;
        }
        false
    }

    /// The next template to load: names are taken off the top of the stack
    /// and those already loaded are dropped.  `None` when the stack runs
    /// out.  A name returned is never one already loaded.
    pub fn next_name(&mut self) -> (r: Option<String>)
        ensures
            final(self).pending() == next_pending(old(self).pending(), old(self).done()).0,
            match next_pending(old(self).pending(), old(self).done()).1 {
                Some(n) => r is Some && r->0@ == n,
                None => r is None,
            },
            final(self).done() == old(self).done(),
            r matches Some(n) ==> !old(self).done().contains(n@),
        decreases old(self).pending().len(),
    {
        let ghost stack0 = self.pending();
        match self.to_load.pop() {
            None => {
                proof {
                    assert(stack0.len() == 0);
                }
                None
            },
            Some(name) => {
                proof {
                    assert(stack0.last() == name@);
                    assert(self.pending() =~= stack0.drop_last());
                }
                if self.is_loaded(name.as_str()) {
                    self.next_name()
                } else {
                    Some(name)
                }
            },
        }
    }

    /// Record that `name` was loaded with the parents `parents`: queue the
    /// parents not loaded yet, in order, then mark `name` loaded.
    pub fn record(&mut self, name: &str, parents: &[&str])
        ensures
            final(self).pending() == old(self).pending() + unloaded(
                parents@.map_values(|p: &str| p@),
                old(self).done(),
                parents@.len() as int,
            ),
            final(self).done() == old(self).done().push(name@),
    {
        let ghost pv = parents@.map_values(|p: &str| p@);
        let ghost stack0 = self.pending();
        let ghost done0 = self.done();
        let mut i: usize = 0;
        while i < parents.len()
            invariant
                pv == parents@.map_values(|p: &str| p@),
                i <= parents@.len(),
                self.done() == done0,
                self.pending() == stack0 + unloaded(pv, done0, i as int),
            decreases parents.len() - i,
        {
            let p = parents[i];
            assert(pv[i as int] == p@);
            if !self.is_loaded(p) {
                let ghost pre = self.pending();
                self.to_load.push(string_of(p));
                proof {
                    assert(self.pending() =~= pre.push(p@));
                    assert(self.pending() =~= stack0 + unloaded(pv, done0, i + 1));
                }
            } else {
                proof {
                    assert(unloaded(pv, done0, i + 1) =~= unloaded(pv, done0, i as int));
                }
            }
            i = i + 1;
        }
        let ghost pre = self.done();
        self.loaded.push(string_of(name));
        proof {
            assert(self.done() =~= pre.push(name@));
        }
    }
}

/// Order loaded templates by name.  The same templates stay, each under its
/// name.
pub fn order_templates(templates: &mut IndexMap<String, Template>)
    ensures
        template_entries(*final(templates)).to_multiset() == template_entries(*old(templates)).to_multiset(),
        strictly_sorted(keys_of(template_entries(*final(templates)))),
{
    tm_sort_keys(templates);
    let _n = tm_len(templates);
    proof {
        let fs = template_entries(*templates);
        assert forall|a: int, b: int| 0 <= a < b < keys_of(fs).len() implies text_lt(
            #[trigger] keys_of(fs)[a],
            #[trigger] keys_of(fs)[b],
        ) by {
            assert(!text_lt(fs[b].0, fs[a].0));
            lemma_text_lt_total(fs[a].0, fs[b].0);
        }
    }
}

// ---------------------------------------------------------------------------
// The loading run: what the queue's steps add up to
// ---------------------------------------------------------------------------

/// The parents that `ps` records for template `x` (none when it records
/// nothing).
pub open spec fn parents_in(ps: Map<Seq<char>, Seq<Seq<char>>>, x: Seq<char>) -> Seq<Seq<char>> {
    if ps.dom().contains(x) {
        ps[x]
    } else {
        Seq::empty()
    }
}

/// Each name of `p` after the first is a parent of the one before.
pub open spec fn parent_chain(ps: Map<Seq<char>, Seq<Seq<char>>>, p: Seq<Seq<char>>) -> bool {
    forall|i: int| 0 <= i < p.len() - 1 ==> #[trigger] parents_in(ps, p[i]).contains(p[i + 1])
}

/// `x` is a category or, through `$extends`, an ancestor of one.
pub open spec fn in_closure(cats: Seq<Seq<char>>, ps: Map<Seq<char>, Seq<Seq<char>>>, x: Seq<char>) -> bool {
    exists|p: Seq<Seq<char>>| #[trigger] parent_chain(ps, p) && p.len() >= 1 && cats.contains(p[0]) && p.last() == x
}

/// `x` is loaded, still to load, or being loaded.
pub open spec fn covered(pending: Seq<Seq<char>>, done: Seq<Seq<char>>, current: Option<Seq<char>>, x: Seq<char>) -> bool {
    done.contains(x) || pending.contains(x) || current == Some(x)
}

/// A loading state (the names still to load, those loaded, and the one
/// being loaded, if any) is on course for categories `cats` whose templates
/// have the parents `ps`: every category and every parent of a loaded
/// template is loaded, still to load or being loaded; every such name is in
/// the closure; no name is loaded twice.
pub open spec fn loading_sound(
    pending: Seq<Seq<char>>,
    done: Seq<Seq<char>>,
    current: Option<Seq<char>>,
    cats: Seq<Seq<char>>,
    ps: Map<Seq<char>, Seq<Seq<char>>>,
) -> bool {
    &&& forall|c: Seq<char>| cats.contains(c) ==> #[trigger] covered(pending, done, current, c)
    &&& forall|d: Seq<char>, x: Seq<char>|
        done.contains(d) && #[trigger] parents_in(ps, d).contains(x) ==> covered(pending, done, current, x)
    &&& forall|x: Seq<char>| #[trigger] covered(pending, done, current, x) ==> in_closure(cats, ps, x)
    &&& done.no_duplicates()
    &&& current matches Some(n) ==> !done.contains(n)
}

proof fn lemma_next_pending_facts(stack: Seq<Seq<char>>, done: Seq<Seq<char>>)
    ensures
        forall|x: Seq<char>| next_pending(stack, done).0.contains(x) ==> stack.contains(x),
        forall|x: Seq<char>|
            stack.contains(x) ==> next_pending(stack, done).0.contains(x) || done.contains(x) || next_pending(
                stack,
                done,
            ).1 == Some(x),
        next_pending(stack, done).1 matches Some(n) ==> stack.contains(n) && !done.contains(n),
        next_pending(stack, done).1 is None ==> next_pending(stack, done).0.len() == 0,
    decreases stack.len(),
{
    if stack.len() > 0 {
        let init = stack.drop_last();
        assert(stack == init.push(stack.last()));
        assert(stack.contains(stack.last())) by {
            assert(stack[stack.len() - 1] == stack.last());
        }
        assert forall|x: Seq<char>| init.contains(x) implies stack.contains(x) by {
            let i = choose|i: int| 0 <= i < init.len() && init[i] == x;
            assert(stack[i] == x);
        }
        assert forall|x: Seq<char>| stack.contains(x) implies init.contains(x) || x == stack.last() by {
            let i = choose|i: int| 0 <= i < stack.len() && stack[i] == x;
            if i < init.len() {
                assert(init[i] == x);
            }
        }
        if done.contains(stack.last()) {
            lemma_next_pending_facts(init, done);
        }
    }
}

proof fn lemma_chain_extend(cats: Seq<Seq<char>>, ps: Map<Seq<char>, Seq<Seq<char>>>, x: Seq<char>, y: Seq<char>)
    requires
        in_closure(cats, ps, x),
        parents_in(ps, x).contains(y),
    ensures
        in_closure(cats, ps, y),
{
    let p = choose|p: Seq<Seq<char>>| #[trigger] parent_chain(ps, p) && p.len() >= 1 && cats.contains(p[0]) && p.last() == x;
    let q = p.push(y);
    assert forall|i: int| 0 <= i < q.len() - 1 implies #[trigger] parents_in(ps, q[i]).contains(q[i + 1]) by {
        if i < p.len() - 1 {
            assert(parents_in(ps, p[i]).contains(p[i + 1]));
        }
    }
    assert(parent_chain(ps, q));
}

proof fn lemma_unloaded_members(parents: Seq<Seq<char>>, done: Seq<Seq<char>>, k: int, x: Seq<char>)
    requires
        0 <= k <= parents.len(),
    ensures
        unloaded(parents, done, k).contains(x) <==> exists|j: int| 0 <= j < k && parents[j] == x && !done.contains(x),
    decreases k,
{
    if k > 0 {
        lemma_unloaded_members(parents, done, k - 1, x);
        let prev = unloaded(parents, done, k - 1);
        let more: Seq<Seq<char>> = if done.contains(parents[k - 1]) {
            Seq::empty()
        } else {
            seq![parents[k - 1]]
        };
        assert(unloaded(parents, done, k) == prev + more);
        if (prev + more).contains(x) {
            let i = choose|i: int| 0 <= i < (prev + more).len() && (prev + more)[i] == x;
            if i < prev.len() {
                assert(prev[i] == x);
            }
        }
        if prev.contains(x) {
            let i = choose|i: int| 0 <= i < prev.len() && prev[i] == x;
            assert((prev + more)[i] == x);
        }
        if parents[k - 1] == x && !done.contains(x) {
            assert((prev + more)[prev.len() as int] == x);
        }
    }
}

/// The run starts on course: the categories still to load, nothing loaded.
pub proof fn lemma_loading_starts(cats: Seq<Seq<char>>, ps: Map<Seq<char>, Seq<Seq<char>>>)
    ensures
        loading_sound(cats, Seq::empty(), None, cats, ps),
{
    assert forall|x: Seq<char>| #[trigger] covered(cats, Seq::empty(), None, x) implies in_closure(cats, ps, x) by {
        let p = seq![x];
        assert(parent_chain(ps, p));
    }
    assert(Seq::<Seq<char>>::empty().no_duplicates());
}

/// Taking the next name keeps the run on course; the name taken is one not
/// yet loaded, and when none is left the stack is empty.
pub proof fn lemma_loading_next(
    pending: Seq<Seq<char>>,
    done: Seq<Seq<char>>,
    cats: Seq<Seq<char>>,
    ps: Map<Seq<char>, Seq<Seq<char>>>,
)
    requires
        loading_sound(pending, done, None, cats, ps),
    ensures
        loading_sound(next_pending(pending, done).0, done, next_pending(pending, done).1, cats, ps),
        next_pending(pending, done).1 is None ==> next_pending(pending, done).0.len() == 0,
{
    lemma_next_pending_facts(pending, done);
    let rest = next_pending(pending, done).0;
    let cur = next_pending(pending, done).1;
    assert forall|x: Seq<char>| covered(pending, done, None, x) implies #[trigger] covered(rest, done, cur, x) by {}
    assert forall|x: Seq<char>| #[trigger] covered(rest, done, cur, x) implies in_closure(cats, ps, x) by {
        assert(covered(pending, done, None, x));
    }
}

/// Recording the template being loaded with its parents keeps the run on
/// course.
pub proof fn lemma_loading_record(
    rest: Seq<Seq<char>>,
    done: Seq<Seq<char>>,
    name: Seq<char>,
    cats: Seq<Seq<char>>,
    ps: Map<Seq<char>, Seq<Seq<char>>>,
)
    requires
        loading_sound(rest, done, Some(name), cats, ps),
    ensures
        ({
            let parents = parents_in(ps, name);
            loading_sound(rest + unloaded(parents, done, parents.len() as int), done.push(name), None, cats, ps)
        }),
{
    let parents = parents_in(ps, name);
    let pending = rest + unloaded(parents, done, parents.len() as int);
    let done2 = done.push(name);
    assert forall|x: Seq<char>| done2.contains(x) <==> done.contains(x) || x == name by {
        if done2.contains(x) {
            let i = choose|i: int| 0 <= i < done2.len() && done2[i] == x;
            if i < done.len() {
                assert(done[i] == x);
            }
        }
        if done.contains(x) {
            let i = choose|i: int| 0 <= i < done.len() && done[i] == x;
            assert(done2[i] == x);
        }
        if x == name {
            assert(done2[done.len() as int] == x);
        }
    }
    assert forall|x: Seq<char>| pending.contains(x) <==> rest.contains(x) || unloaded(parents, done, parents.len() as int).contains(x) by {
        let u = unloaded(parents, done, parents.len() as int);
        if pending.contains(x) {
            let i = choose|i: int| 0 <= i < pending.len() && pending[i] == x;
            if i < rest.len() {
                assert(rest[i] == x);
            } else {
                assert(u[i - rest.len()] == x);
            }
        }
        if rest.contains(x) {
            let i = choose|i: int| 0 <= i < rest.len() && rest[i] == x;
            assert(pending[i] == x);
        }
        if u.contains(x) {
            let i = choose|i: int| 0 <= i < u.len() && u[i] == x;
            assert(pending[rest.len() + i] == x);
        }
    }
    assert forall|x: Seq<char>| covered(rest, done, Some(name), x) implies #[trigger] covered(pending, done2, None, x) by {}
    assert forall|d: Seq<char>, x: Seq<char>|
        done2.contains(d) && #[trigger] parents_in(ps, d).contains(x) implies covered(pending, done2, None, x) by {
        if d == name {
            let j = choose|j: int| 0 <= j < parents.len() && parents[j] == x;
            lemma_unloaded_members(parents, done, parents.len() as int, x);
        } else {
            assert(covered(rest, done, Some(name), x));
        }
    }
    assert forall|x: Seq<char>| #[trigger] covered(pending, done2, None, x) implies in_closure(cats, ps, x) by {
        if unloaded(parents, done, parents.len() as int).contains(x) {
            lemma_unloaded_members(parents, done, parents.len() as int, x);
            assert(covered(rest, done, Some(name), name));
            lemma_chain_extend(cats, ps, name, x);
        } else {
            assert(covered(rest, done, Some(name), x));
        }
    }
    assert(done2.no_duplicates()) by {
        assert forall|i: int, j: int| 0 <= i < done2.len() && 0 <= j < done2.len() && i != j implies done2[i] != done2[j] by {
            if i < done.len() && j < done.len() {
                assert(done[i] != done[j]);
            } else if i < done.len() {
                assert(done.contains(done[i]));
            } else if j < done.len() {
                assert(done.contains(done[j]));
            }
        }
    }
}

/// When no name is left to load, the loaded names are the closure of the
/// categories under `$extends`: every category and every parent of a loaded
/// template is loaded, every loaded name is a category or an ancestor of
/// one, and no name was loaded twice.
pub proof fn lemma_loading_complete(done: Seq<Seq<char>>, cats: Seq<Seq<char>>, ps: Map<Seq<char>, Seq<Seq<char>>>)
    requires
        loading_sound(Seq::empty(), done, None, cats, ps),
    ensures
        forall|c: Seq<char>| cats.contains(c) ==> done.contains(c),
        forall|d: Seq<char>, x: Seq<char>| done.contains(d) && #[trigger] parents_in(ps, d).contains(x) ==> done.contains(x),
        forall|x: Seq<char>| done.contains(x) ==> in_closure(cats, ps, x),
        done.no_duplicates(),
{
    assert forall|c: Seq<char>| cats.contains(c) implies done.contains(c) by {
        assert(covered(Seq::empty(), done, None, c));
    }
    assert forall|x: Seq<char>| done.contains(x) implies in_closure(cats, ps, x) by {
        assert(covered(Seq::empty(), done, None, x));
    }
}

proof fn lemma_closure_within(
    cats: Seq<Seq<char>>,
    ps: Map<Seq<char>, Seq<Seq<char>>>,
    s: Set<Seq<char>>,
    p: Seq<Seq<char>>,
    k: int,
)
    requires
        forall|c: Seq<char>| cats.contains(c) ==> s.contains(c),
        forall|x: Seq<char>, y: Seq<char>| s.contains(x) && #[trigger] parents_in(ps, x).contains(y) ==> s.contains(y),
        parent_chain(ps, p),
        p.len() >= 1,
        cats.contains(p[0]),
        0 <= k < p.len(),
    ensures
        s.contains(p[k]),
    decreases k,
{
    if k > 0 {
        lemma_closure_within(cats, ps, s, p, k - 1);
        let i = k - 1;
        assert(parents_in(ps, p[i]).contains(p[i + 1]));
        assert(s.contains(p[i]) && parents_in(ps, p[i]).contains(p[k]));
    }
}

/// The run stops: every name it loads lies in any finite set of names that
/// holds the categories and the parents of its members, and no name is
/// loaded twice, so it loads no more names than such a set holds.
pub proof fn lemma_loading_bounded(
    pending: Seq<Seq<char>>,
    done: Seq<Seq<char>>,
    current: Option<Seq<char>>,
    cats: Seq<Seq<char>>,
    ps: Map<Seq<char>, Seq<Seq<char>>>,
    s: Set<Seq<char>>,
)
    requires
        loading_sound(pending, done, current, cats, ps),
        s.finite(),
        forall|c: Seq<char>| cats.contains(c) ==> s.contains(c),
        forall|x: Seq<char>, y: Seq<char>| s.contains(x) && #[trigger] parents_in(ps, x).contains(y) ==> s.contains(y),
    ensures
        done.len() <= s.len(),
        current is Some ==> done.len() < s.len(),
{
    assert forall|x: Seq<char>| #[trigger] covered(pending, done, current, x) implies s.contains(x) by {
        let p = choose|p: Seq<Seq<char>>| #[trigger] parent_chain(ps, p) && p.len() >= 1 && cats.contains(p[0]) && p.last() == x;
        lemma_closure_within(cats, ps, s, p, p.len() - 1);
    }
    done.unique_seq_to_set();
    let ds = done.to_set();
    assert(ds.subset_of(s)) by {
        assert forall|x: Seq<char>| ds.contains(x) implies s.contains(x) by {
            assert(covered(pending, done, current, x));
        }
    }
    vstd::set_lib::lemma_len_subset(ds, s);
    if current is Some {
        let n = current->0;
        assert(covered(pending, done, current, n));
        let ds2 = ds.insert(n);
        assert(!ds.contains(n));
        assert(ds2.subset_of(s));
        vstd::set_lib::lemma_len_subset(ds2, s);
    }
}

} // verus!
