//! The decisions behind the user-facing subcommands: dependency resolution,
//! requested roots and orphan detection.

use vstd::prelude::*;
use crate::error::FeheimError;
use crate::formula::{strs, Formula};
use crate::api::first_named;
use crate::config::{spec_keg, Config};
use crate::install::{keg_version, spec_keg_version};
use crate::state::sorted_of;
use crate::formula::spec_stable_version;
use crate::text::{chars_of, join, join_exec, sort_names, sorted_strict, string_of};

verus! {

/// Dependency graph: formula name → declared dependencies.
pub type Graph = Map<Seq<char>, Seq<Seq<char>>>;

/// The graph of a list of (name, dependencies) entries, later entries
/// replacing earlier ones of the same name (as collecting into a map does).
pub open spec fn graph_of(es: Seq<(String, Vec<String>)>) -> Graph
    decreases es.len(),
{
    if es.len() == 0 {
        Map::empty()
    } else {
        graph_of(es.drop_last()).insert(es.last().0@, strs(es.last().1@))
    }
}

/// The graph that the index of formulae describes.
pub open spec fn spec_dependency_map(fs: Seq<Formula>) -> Graph
    decreases fs.len(),
{
    if fs.len() == 0 {
        Map::empty()
    } else {
        spec_dependency_map(fs.drop_last()).insert(fs.last().name@, strs(fs.last().dependencies@))
    }
}

/// Map of formula name → its declared dependencies.
pub struct DepGraph {
    entries: Vec<(String, Vec<String>)>,
}

impl View for DepGraph {
    type V = Graph;

    closed spec fn view(&self) -> Graph {
        graph_of(self.entries@)
    }
}

proof fn lemma_graph_finite(es: Seq<(String, Vec<String>)>)
    ensures
        graph_of(es).dom().finite(),
    decreases es.len(),
{
    if es.len() > 0 {
        lemma_graph_finite(es.drop_last());
    }
}

proof fn lemma_graph_suffix_absent(es: Seq<(String, Vec<String>)>, i: int, k: Seq<char>)
    requires
        0 <= i <= es.len(),
        forall|j: int| i <= j < es.len() ==> es[j].0@ != k,
    ensures
        graph_of(es).contains_key(k) == graph_of(es.take(i)).contains_key(k),
        graph_of(es)[k] == graph_of(es.take(i))[k],
    decreases es.len() - i,
{
    if i == es.len() {
        assert(es.take(i) =~= es);
    } else {
        assert(es.drop_last().take(i) =~= es.take(i));
        lemma_graph_suffix_absent(es.drop_last(), i, k);
    }
}

impl DepGraph {
    /// The dependencies declared for `name`, if the graph has it.
    pub fn deps_of(&self, name: &String) -> (res: Option<&Vec<String>>)
        ensures
            res is Some == self@.contains_key(name@),
            res matches Some(v) ==> strs(v@) == self@[name@],
    {
        let mut i: usize = self.entries.len();
        while i > 0
            invariant
                i <= self.entries.len(),
                forall|j: int| i <= j < self.entries@.len() ==> self.entries@[j].0@ != name@,
            decreases i,
        {
            if self.entries[i - 1].0 == *name {
                proof {
                    lemma_graph_suffix_absent(self.entries@, i as int, name@);
                    assert(self.entries@.take(i as int).drop_last() =~= self.entries@.take(i - 1));
                }
                return Some(&self.entries[i - 1].1);
            }
            i = i - 1;
        }
        proof {
            lemma_graph_suffix_absent(self.entries@, 0, name@);
        }
        None
    }

    /// Whether the graph has an entry for `name`.
    pub fn contains(&self, name: &String) -> (res: bool)
        ensures
            res == self@.contains_key(name@),
    {
        self.deps_of(name).is_some()
    }
}

/// Map of formula name → its declared dependencies, from the index.
pub fn dependency_map(formulae: &Vec<Formula>) -> (res: DepGraph)
    ensures
        res@ == spec_dependency_map(formulae@),
{
    let mut entries: Vec<(String, Vec<String>)> = Vec::new();
    let mut i: usize = 0;
    while i < formulae.len()
        invariant
            i <= formulae.len(),
            entries@.len() == i,
            graph_of(entries@) == spec_dependency_map(formulae@.take(i as int)),
        decreases formulae.len() - i,
    {
        let f = &formulae[i];
        let mut deps: Vec<String> = Vec::new();
        let mut k: usize = 0;
        while k < f.dependencies.len()
            invariant
                k <= f.dependencies.len(),
                deps@ == f.dependencies@.take(k as int),
            decreases f.dependencies.len() - k,
        {
            deps.push(f.dependencies[k].clone());
            assert(deps@ =~= f.dependencies@.take(k + 1));
            k = k + 1;
        }
        assert(f.dependencies@.take(k as int) =~= f.dependencies@);
        let ghost before = entries@;
        entries.push((f.name.clone(), deps));
        assert(entries@.drop_last() =~= before);
        assert(formulae@.take(i + 1).drop_last() =~= formulae@.take(i as int));
        i = i + 1;
    }
    assert(formulae@.take(formulae.len() as int) =~= formulae@);
    DepGraph { entries }
}

/// Depth-first visit of `name`: if not yet seen, mark it seen, visit its
/// dependencies that the graph has, in order, then append it to `order`.
/// `fuel` bounds the nesting; it never runs out when it is at least the
/// number of names not yet seen.
pub open spec fn dfs_visit(
    g: Graph,
    name: Seq<char>,
    seen: Seq<Seq<char>>,
    order: Seq<Seq<char>>,
    fuel: nat,
) -> (Seq<Seq<char>>, Seq<Seq<char>>)
    decreases fuel, 0int, 0int,
{
    if seen.contains(name) || fuel == 0 {
        (seen, order)
    } else {
        let r = dfs_visit_list(g, g[name], 0, seen.push(name), order, (fuel - 1) as nat);
        (r.0, r.1.push(name))
    }
}

/// Visits `deps[i..]` in order, skipping names the graph does not have.
pub open spec fn dfs_visit_list(
    g: Graph,
    deps: Seq<Seq<char>>,
    i: int,
    seen: Seq<Seq<char>>,
    order: Seq<Seq<char>>,
    fuel: nat,
) -> (Seq<Seq<char>>, Seq<Seq<char>>)
    decreases fuel, 1int, deps.len() - i,
{
    if i < 0 || i >= deps.len() {
        (seen, order)
    } else if g.contains_key(deps[i]) {
        let r = dfs_visit(g, deps[i], seen, order, fuel);
        dfs_visit_list(g, deps, i + 1, r.0, r.1, fuel)
    } else {
        dfs_visit_list(g, deps, i + 1, seen, order, fuel)
    }
}

/// The install order of `root`: dependencies first, depth-first, each name once.
pub open spec fn spec_resolve(g: Graph, root: Seq<char>) -> Seq<Seq<char>> {
    dfs_visit(g, root, Seq::empty(), Seq::empty(), g.dom().len()).1
}

/// A duplicate-free list of names of `g` is no longer than the graph.
proof fn lemma_seen_bound(g: Graph, seen: Seq<Seq<char>>)
    requires
        g.dom().finite(),
        seen.no_duplicates(),
        forall|k: Seq<char>| seen.contains(k) ==> g.contains_key(k),
    ensures
        seen.len() <= g.dom().len(),
{
    seen.unique_seq_to_set();
    assert(seen.to_set().subset_of(g.dom()));
    vstd::set_lib::lemma_len_subset(seen.to_set(), g.dom());
}

fn contains_name(list: &Vec<String>, name: &String) -> (res: bool)
    ensures
        res == strs(list@).contains(name@),
{
    let mut i: usize = 0;
    while i < list.len()
        invariant
            i <= list.len(),
            forall|j: int| 0 <= j < i ==> list@[j]@ != name@,
        decreases list.len() - i,
    {
        if list[i] == *name {
            assert(strs(list@)[i as int] == name@);
            return true;
        }
        i = i + 1;
    }
    assert(!strs(list@).contains(name@)) by {
        if strs(list@).contains(name@) {
            let j = choose|j: int| 0 <= j < strs(list@).len() && strs(list@)[j] == name@;
            assert(list@[j]@ == name@);
        }
    }
    false
}

/// How many of the seen names the graph has.
spec fn seen_in_graph(g: Graph, seen: Seq<Seq<char>>) -> nat {
    seen.to_set().intersect(g.dom()).len()
}

/// Seeing more names never lowers the count of seen names in the graph.
proof fn lemma_seen_in_graph_grows(g: Graph, a: Seq<Seq<char>>, b: Seq<Seq<char>>)
    requires
        g.dom().finite(),
        a.to_set().subset_of(b.to_set()),
    ensures
        seen_in_graph(g, a) <= seen_in_graph(g, b),
        seen_in_graph(g, b) <= g.dom().len(),
{
    assert(a.to_set().intersect(g.dom()).subset_of(b.to_set().intersect(g.dom())));
    assert(b.to_set().intersect(g.dom()).subset_of(g.dom()));
    vstd::set_lib::lemma_len_subset(b.to_set().intersect(g.dom()), g.dom());
    vstd::set_lib::lemma_len_subset(a.to_set().intersect(g.dom()), b.to_set().intersect(g.dom()));
}

/// Depth-first dependency resolution producing a dependencies-first order:
/// a name already seen is skipped; otherwise it is marked seen, and it is
/// `NotFound` when the graph lacks it; else its dependencies that the graph
/// has are resolved in order, then it is appended to `order`. `fuel` is a
/// proof device: it never runs out when it covers the names of the graph not
/// yet seen.
fn resolve(
    g: &DepGraph,
    name: &String,
    seen: &mut Vec<String>,
    order: &mut Vec<String>,
    Ghost(fuel): Ghost<nat>,
) -> (res: Result<(), FeheimError>)
    requires
        fuel + seen_in_graph(g@, strs(old(seen)@)) >= g@.dom().len(),
    ensures
        strs(old(seen)@).to_set().subset_of(strs(final(seen)@).to_set()),
        strs(old(seen)@).contains(name@) ==> (res is Ok && final(seen)@ == old(seen)@ && final(order)@
            == old(order)@),
        !strs(old(seen)@).contains(name@) && !g@.contains_key(name@) ==> (res matches Err(
            FeheimError::NotFound(n),
        ) && n@ == name@ && strs(final(seen)@) == strs(old(seen)@).push(name@) && final(order)@
            == old(order)@),
        g@.contains_key(name@) ==> (res is Ok && (strs(final(seen)@), strs(final(order)@)) == dfs_visit(
            g@,
            name@,
            strs(old(seen)@),
            strs(old(order)@),
            fuel,
        )),
    decreases fuel,
{
    if contains_name(seen, name) {
        return Ok(());
    }
    let ghost s0 = strs(seen@);
    let ghost seen0 = s0.push(name@);
    let ghost order0 = strs(order@);
    seen.push(name.clone());
    assert(strs(seen@) =~= seen0);
    proof {
        s0.lemma_push_to_set_commute(name@);
        assert(s0.to_set().subset_of(seen0.to_set()));
    }
    let deps = match g.deps_of(name) {
        Some(ds) => ds,
        None => {
            return Err(FeheimError::NotFound(name.clone()));
        },
    };
    proof {
        lemma_graph_finite(g.entries@);
        let d = g@.dom();
        assert(seen0.to_set().intersect(d) =~= s0.to_set().intersect(d).insert(name@));
        assert(!s0.to_set().intersect(d).contains(name@));
        lemma_seen_in_graph_grows(g@, seen0, seen0);
    }
    let ghost dv = strs(deps@);
    let ghost target = dfs_visit_list(g@, dv, 0, seen0, order0, (fuel - 1) as nat);
    let mut i: usize = 0;
    while i < deps.len()
        invariant
            i <= deps.len(),
            dv == strs(deps@),
            dv == g@[name@],
            g@.dom().finite(),
            fuel >= 1,
            fuel + seen_in_graph(g@, strs(seen@)) >= g@.dom().len() + 1,
            s0.to_set().subset_of(strs(seen@).to_set()),
            s0 == strs(old(seen)@),
            dfs_visit_list(g@, dv, i as int, strs(seen@), strs(order@), (fuel - 1) as nat)
                == target,
        decreases deps.len() - i,
    {
        let d = &deps[i];
        assert(dv[i as int] == d@);
        if g.contains(d) {
            let ghost before = strs(seen@);
            let r = resolve(g, d, seen, order, Ghost((fuel - 1) as nat));
            if r.is_err() {
                return r;
            }
            proof {
                lemma_seen_in_graph_grows(g@, before, strs(seen@));
            }
        }
        i = i + 1;
    }
    let ghost before = strs(order@);
    order.push(name.clone());
    assert(strs(order@) =~= before.push(name@));
    Ok(())
}

/// The install order for `name`: its dependencies that the index has,
/// depth-first and each once, then `name` itself; `NotFound` when the index
/// has no formula of that name.
pub fn install_order(g: &DepGraph, name: &str) -> (res: Result<Vec<String>, FeheimError>)
    ensures
        g@.contains_key(name@) ==> (res matches Ok(order) && strs(order@) == spec_resolve(
            g@,
            name@,
        )),
        !g@.contains_key(name@) ==> (res matches Err(FeheimError::NotFound(n)) && n@ == name@),
{
    let n = name.to_owned();
    if !g.contains(&n) {
        return Err(FeheimError::NotFound(n));
    }
    let mut seen: Vec<String> = Vec::new();
    let mut order: Vec<String> = Vec::new();
    assert(strs(seen@) =~= Seq::<Seq<char>>::empty());
    assert(strs(order@) =~= Seq::<Seq<char>>::empty());
    assert(strs(seen@).to_set().intersect(g@.dom()) =~= Set::<Seq<char>>::empty());
    match resolve(g, &n, &mut seen, &mut order, Ghost(g@.dom().len())) {
        Ok(()) => Ok(order),
        Err(e) => Err(e),
    }
}

/// `b` is a dependency of `a`, both in the graph.
pub open spec fn edge(g: Graph, a: Seq<char>, b: Seq<char>) -> bool {
    g.contains_key(a) && g[a].contains(b) && g.contains_key(b)
}

/// `p` is a walk along dependency edges of `g`.
pub open spec fn is_path(g: Graph, p: Seq<Seq<char>>) -> bool {
    &&& p.len() >= 1
    &&& g.contains_key(p[0])
    &&& forall|i: int| 0 <= i < p.len() - 1 ==> #[trigger] edge(g, p[i], p[i + 1])
}

/// `b` can be reached from `a` by following dependencies (in zero or more steps).
pub open spec fn reaches(g: Graph, a: Seq<char>, b: Seq<char>) -> bool {
    exists|p: Seq<Seq<char>>| #[trigger] is_path(g, p) && p[0] == a && p.last() == b
}

proof fn lemma_reaches_refl(g: Graph, a: Seq<char>)
    requires
        g.contains_key(a),
    ensures
        reaches(g, a, a),
{
    let p = seq![a];
    assert(is_path(g, p));
}

proof fn lemma_reaches_step(g: Graph, a: Seq<char>, b: Seq<char>, c: Seq<char>)
    requires
        reaches(g, a, b),
        edge(g, b, c),
    ensures
        reaches(g, a, c),
{
    let p = choose|p: Seq<Seq<char>>| #[trigger] is_path(g, p) && p[0] == a && p.last() == b;
    let q = p.push(c);
    assert forall|i: int| 0 <= i < q.len() - 1 implies #[trigger] edge(g, q[i], q[i + 1]) by {
        if i < p.len() - 1 {
            assert(edge(g, p[i], p[i + 1]));
        }
    }
    assert(is_path(g, q));
}

proof fn lemma_reaches_prepend(g: Graph, a: Seq<char>, b: Seq<char>, c: Seq<char>)
    requires
        edge(g, a, b),
        reaches(g, b, c),
    ensures
        reaches(g, a, c),
{
    let p = choose|p: Seq<Seq<char>>| #[trigger] is_path(g, p) && p[0] == b && p.last() == c;
    let q = seq![a] + p;
    assert forall|i: int| 0 <= i < q.len() - 1 implies #[trigger] edge(g, q[i], q[i + 1]) by {
        if i > 0 {
            let k = i - 1;
            assert(edge(g, p[k], p[k + 1]));
        }
    }
    assert(is_path(g, q));
}

/// The bookkeeping of a depth-first search is consistent: names are seen at
/// most once, all in the graph, and every finished name was seen.
pub open spec fn dfs_wf(g: Graph, seen: Seq<Seq<char>>, order: Seq<Seq<char>>) -> bool {
    &&& seen.no_duplicates()
    &&& order.no_duplicates()
    &&& forall|k: Seq<char>| seen.contains(k) ==> g.contains_key(k)
    &&& forall|k: Seq<char>| order.contains(k) ==> seen.contains(k)
}

/// Names seen but not yet finished: the names on the search stack.
pub open spec fn on_stack(seen: Seq<Seq<char>>, order: Seq<Seq<char>>, k: Seq<char>) -> bool {
    seen.contains(k) && !order.contains(k)
}

/// What a visit guarantees about the state `r` it leaves, from `seen`/`order`.
pub open spec fn dfs_post(
    g: Graph,
    from: Seq<char>,
    seen: Seq<Seq<char>>,
    order: Seq<Seq<char>>,
    r: (Seq<Seq<char>>, Seq<Seq<char>>),
) -> bool {
    &&& seen.is_prefix_of(r.0)
    &&& order.is_prefix_of(r.1)
    &&& dfs_wf(g, r.0, r.1)
    &&& forall|k: Seq<char>| on_stack(r.0, r.1, k) == on_stack(seen, order, k)
    &&& forall|k: Seq<char>| r.0.contains(k) && !seen.contains(k) ==> reaches(g, from, k)
    &&& forall|i: int, d: Seq<char>|
        order.len() <= i < r.1.len() && #[trigger] edge(g, r.1[i], d) ==> r.1.take(i).contains(d)
            || reaches(g, d, r.1[i])
    &&& forall|i: int, d: Seq<char>|
        order.len() <= i < r.1.len() && #[trigger] edge(g, r.1[i], d) ==> r.0.contains(d)
}

proof fn lemma_push_contains(s: Seq<Seq<char>>, x: Seq<char>, k: Seq<char>)
    ensures
        s.push(x).contains(k) == (s.contains(k) || k == x),
{
    if s.push(x).contains(k) && k != x {
        let j = choose|j: int| 0 <= j < s.push(x).len() && s.push(x)[j] == k;
        assert(s[j] == k);
    }
    if s.contains(k) {
        let j = choose|j: int| 0 <= j < s.len() && s[j] == k;
        assert(s.push(x)[j] == k);
    }
    if k == x {
        assert(s.push(x)[s.len() as int] == x);
    }
}

proof fn lemma_prefix_contains(a: Seq<Seq<char>>, b: Seq<Seq<char>>, k: Seq<char>)
    requires
        a.is_prefix_of(b),
        a.contains(k),
    ensures
        b.contains(k),
{
    let j = choose|j: int| 0 <= j < a.len() && a[j] == k;
    assert(b[j] == k);
}

proof fn lemma_prefix_trans(a: Seq<Seq<char>>, b: Seq<Seq<char>>, c: Seq<Seq<char>>)
    requires
        a.is_prefix_of(b),
        b.is_prefix_of(c),
    ensures
        a.is_prefix_of(c),
{
    assert forall|j: int| 0 <= j < a.len() implies a[j] == c[j] by {
        assert(b[j] == c[j]);
    }
}

/// The invariants of a visit of `name`.
proof fn lemma_dfs_visit(
    g: Graph,
    name: Seq<char>,
    seen: Seq<Seq<char>>,
    order: Seq<Seq<char>>,
    fuel: nat,
)
    requires
        g.dom().finite(),
        g.contains_key(name),
        dfs_wf(g, seen, order),
        fuel + seen.len() >= g.dom().len(),
        forall|k: Seq<char>| on_stack(seen, order, k) ==> reaches(g, k, name),
    ensures
        dfs_post(g, name, seen, order, dfs_visit(g, name, seen, order, fuel)),
        dfs_visit(g, name, seen, order, fuel).0.contains(name),
        !seen.contains(name) ==> dfs_visit(g, name, seen, order, fuel).1.len() > 0
            && dfs_visit(g, name, seen, order, fuel).1.last() == name,
    decreases fuel, 0int, 0int,
{
    let r = dfs_visit(g, name, seen, order, fuel);
    if seen.contains(name) {
        assert(seen.is_prefix_of(seen));
        assert(order.is_prefix_of(order));
    } else {
        assert forall|k: Seq<char>| seen.push(name).contains(k) implies g.contains_key(k) by {
            lemma_push_contains(seen, name, k);
        }
        lemma_seen_bound(g, seen.push(name));
        assert(fuel >= 1);
        let seen1 = seen.push(name);
        let f1 = (fuel - 1) as nat;
        let r1 = dfs_visit_list(g, g[name], 0, seen1, order, f1);
        assert(r == (r1.0, r1.1.push(name)));
        assert(dfs_wf(g, seen1, order)) by {
            assert forall|k: Seq<char>| seen1.contains(k) implies g.contains_key(k) by {
                lemma_push_contains(seen, name, k);
            }
            assert forall|k: Seq<char>| order.contains(k) implies seen1.contains(k) by {
                lemma_push_contains(seen, name, k);
            }
        }
        assert forall|k: Seq<char>| on_stack(seen1, order, k) implies reaches(g, k, name) by {
            lemma_push_contains(seen, name, k);
            if k == name {
                lemma_reaches_refl(g, name);
            }
        }
        assert(on_stack(seen1, order, name)) by {
            lemma_push_contains(seen, name, name);
        }
        lemma_dfs_visit_list(g, name, g[name], 0, seen1, order, f1);
        assert(seen.is_prefix_of(seen1));
        lemma_prefix_trans(seen, seen1, r.0);
        assert(r1.1.is_prefix_of(r.1));
        lemma_prefix_trans(order, r1.1, r.1);
        // `name` stays on the stack during the visit of its dependencies.
        assert(on_stack(r1.0, r1.1, name));
        assert(r.1.no_duplicates()) by {
            assert forall|a: int, b: int| 0 <= a < b < r.1.len() implies r.1[a] != r.1[b] by {
                if b == r.1.len() - 1 {
                    assert(r1.1.contains(r.1[a]));
                }
            }
        }
        assert forall|k: Seq<char>| r.1.contains(k) implies r.0.contains(k) by {
            lemma_push_contains(r1.1, name, k);
        }
        assert forall|k: Seq<char>| on_stack(r.0, r.1, k) == on_stack(seen, order, k) by {
            lemma_push_contains(r1.1, name, k);
            lemma_push_contains(seen, name, k);
            assert(on_stack(r1.0, r1.1, k) == on_stack(seen1, order, k));
        }
        assert forall|k: Seq<char>| r.0.contains(k) && !seen.contains(k) implies reaches(g, name, k) by {
            lemma_push_contains(seen, name, k);
            if k == name {
                lemma_reaches_refl(g, name);
            }
        }
        assert forall|i: int, d: Seq<char>|
            order.len() <= i < r.1.len() && #[trigger] edge(g, r.1[i], d) implies r.1.take(i).contains(d)
            || reaches(g, d, r.1[i]) by {
            if i < r1.1.len() {
                assert(r.1[i] == r1.1[i]);
                assert(edge(g, r1.1[i], d));
                assert(r.1.take(i) =~= r1.1.take(i));
            } else {
                assert(r.1[i] == name);
                assert(g[name].contains(d));
                let jd = choose|jd: int| 0 <= jd < g[name].len() && g[name][jd] == d;
                assert(r1.0.contains(d));
                assert(r.1.take(i) =~= r1.1);
                if !r1.1.contains(d) {
                    assert(on_stack(seen1, order, d));
                }
            }
        }
        assert forall|i: int, d: Seq<char>|
            order.len() <= i < r.1.len() && #[trigger] edge(g, r.1[i], d) implies r.0.contains(d) by {
            if i < r1.1.len() {
                assert(r.1[i] == r1.1[i]);
                assert(edge(g, r1.1[i], d));
            } else {
                let jd = choose|jd: int| 0 <= jd < g[name].len() && g[name][jd] == d;
            }
        }
        assert(r.0.contains(name)) by {
            assert(seen1[seen.len() as int] == name);
            lemma_prefix_contains(seen1, r.0, name);
        }
    }
}

/// The invariants of visiting the dependencies `deps[i..]` of `parent`.
proof fn lemma_dfs_visit_list(
    g: Graph,
    parent: Seq<char>,
    deps: Seq<Seq<char>>,
    i: int,
    seen: Seq<Seq<char>>,
    order: Seq<Seq<char>>,
    fuel: nat,
)
    requires
        g.dom().finite(),
        g.contains_key(parent),
        deps == g[parent],
        0 <= i <= deps.len(),
        dfs_wf(g, seen, order),
        fuel + seen.len() >= g.dom().len(),
        on_stack(seen, order, parent),
        forall|k: Seq<char>| on_stack(seen, order, k) ==> reaches(g, k, parent),
    ensures
        dfs_post(g, parent, seen, order, dfs_visit_list(g, deps, i, seen, order, fuel)),
        forall|j: int|
            i <= j < deps.len() && g.contains_key(deps[j]) ==> dfs_visit_list(
                g,
                deps,
                i,
                seen,
                order,
                fuel,
            ).0.contains(#[trigger] deps[j]),
    decreases fuel, 1int, deps.len() - i,
{
    let r = dfs_visit_list(g, deps, i, seen, order, fuel);
    if i >= deps.len() {
        assert(seen.is_prefix_of(seen));
        assert(order.is_prefix_of(order));
    } else {
        let d = deps[i];
        let r1: (Seq<Seq<char>>, Seq<Seq<char>>) = if g.contains_key(d) {
            dfs_visit(g, d, seen, order, fuel)
        } else {
            (seen, order)
        };
        assert(r == dfs_visit_list(g, deps, i + 1, r1.0, r1.1, fuel));
        if g.contains_key(d) {
            assert(edge(g, parent, d));
            assert forall|k: Seq<char>| on_stack(seen, order, k) implies reaches(g, k, d) by {
                lemma_reaches_step(g, k, parent, d);
            }
            lemma_dfs_visit(g, d, seen, order, fuel);
        } else {
            assert(seen.is_prefix_of(seen));
            assert(order.is_prefix_of(order));
        }
        assert(r1.0.len() >= seen.len());
        lemma_dfs_visit_list(g, parent, deps, i + 1, r1.0, r1.1, fuel);
        lemma_prefix_trans(seen, r1.0, r.0);
        lemma_prefix_trans(order, r1.1, r.1);
        assert forall|k: Seq<char>| r.0.contains(k) && !seen.contains(k) implies reaches(g, parent, k) by {
            if r1.0.contains(k) {
                lemma_reaches_prepend(g, parent, d, k);
            }
        }
        assert forall|ii: int, dd: Seq<char>|
            order.len() <= ii < r.1.len() && #[trigger] edge(g, r.1[ii], dd) implies r.1.take(ii).contains(dd)
            || reaches(g, dd, r.1[ii]) by {
            if ii < r1.1.len() {
                assert(r.1[ii] == r1.1[ii]);
                assert(edge(g, r1.1[ii], dd));
                assert(r.1.take(ii) =~= r1.1.take(ii));
            }
        }
        assert forall|ii: int, dd: Seq<char>|
            order.len() <= ii < r.1.len() && #[trigger] edge(g, r.1[ii], dd) implies r.0.contains(dd) by {
            if ii < r1.1.len() {
                assert(r.1[ii] == r1.1[ii]);
                assert(edge(g, r1.1[ii], dd));
                lemma_prefix_contains(r1.0, r.0, dd);
            }
        }
        assert forall|j: int| i <= j < deps.len() && g.contains_key(deps[j]) implies r.0.contains(
            #[trigger] deps[j],
        ) by {
            if j == i {
                lemma_prefix_contains(r1.0, r.0, d);
            }
        }
    }
}

/// Law: the install order of `root` lists `root` last, names each formula at
/// most once, holds exactly the formulae reachable from `root` through
/// dependencies the index has, and puts each dependency before the formula
/// that needs it, unless the two lie on a dependency cycle.
pub proof fn law_resolve(graph: DepGraph, root: Seq<char>)
    requires
        graph@.contains_key(root),
    ensures
        spec_resolve(graph@, root).len() > 0,
        spec_resolve(graph@, root).last() == root,
        spec_resolve(graph@, root).no_duplicates(),
        forall|k: Seq<char>| spec_resolve(graph@, root).contains(k) <==> reaches(graph@, root, k),
        forall|i: int, d: Seq<char>|
            0 <= i < spec_resolve(graph@, root).len() && #[trigger] edge(
                graph@,
                spec_resolve(graph@, root)[i],
                d,
            ) ==> spec_resolve(graph@, root).take(i).contains(d) || reaches(
                graph@,
                d,
                spec_resolve(graph@, root)[i],
            ),
{
    let g = graph@;
    lemma_graph_finite(graph.entries@);
    let e: Seq<Seq<char>> = Seq::empty();
    lemma_dfs_visit(g, root, e, e, g.dom().len());
    let r = dfs_visit(g, root, e, e, g.dom().len());
    let order = r.1;
    assert forall|k: Seq<char>| order.contains(k) <==> reaches(g, root, k) by {
        if order.contains(k) {
            assert(r.0.contains(k));
            assert(!e.contains(k));
        }
        if reaches(g, root, k) {
            let p = choose|p: Seq<Seq<char>>| #[trigger] is_path(g, p) && p[0] == root && p.last() == k;
            assert forall|i: int, d: Seq<char>|
                0 <= i < order.len() && #[trigger] edge(g, order[i], d) implies order.contains(d) by {
                assert(r.0.contains(d));
                assert(!on_stack(e, e, d));
            }
            lemma_path_closed(g, order, p, p.len() - 1);
        }
    }
}

/// A set of names closed under dependency edges holds the end of every path
/// that starts in it.
proof fn lemma_path_closed(g: Graph, set: Seq<Seq<char>>, p: Seq<Seq<char>>, j: int)
    requires
        is_path(g, p),
        0 <= j < p.len(),
        set.contains(p[0]),
        forall|i: int, d: Seq<char>|
            0 <= i < set.len() && #[trigger] edge(g, set[i], d) ==> set.contains(d),
    ensures
        set.contains(p[j]),
    decreases j,
{
    if j > 0 {
        lemma_path_closed(g, set, p, j - 1);
        let k = j - 1;
        assert(edge(g, p[k], p[k + 1]));
        let ii = choose|ii: int| 0 <= ii < set.len() && set[ii] == p[k];
        assert(edge(g, set[ii], p[j]));
    }
}

/// `b` is an installed dependency of `a`.
pub open spec fn inst_edge(g: Graph, inst: Set<Seq<char>>, a: Seq<char>, b: Seq<char>) -> bool {
    g.contains_key(a) && g[a].contains(b) && inst.contains(b)
}

/// `p` starts at a root and follows installed dependencies.
pub open spec fn is_kept_path(
    g: Graph,
    inst: Set<Seq<char>>,
    roots: Set<Seq<char>>,
    p: Seq<Seq<char>>,
) -> bool {
    &&& p.len() >= 1
    &&& roots.contains(p[0])
    &&& forall|i: int| 0 <= i < p.len() - 1 ==> #[trigger] inst_edge(g, inst, p[i], p[i + 1])
}

/// `x` is a root or an installed formula that a root needs, directly or not.
pub open spec fn kept(g: Graph, inst: Set<Seq<char>>, roots: Set<Seq<char>>, x: Seq<char>) -> bool {
    exists|p: Seq<Seq<char>>| #[trigger] is_kept_path(g, inst, roots, p) && p.last() == x
}

/// The installed formulae that no root needs.
pub open spec fn spec_orphans(g: Graph, inst: Set<Seq<char>>, roots: Set<Seq<char>>) -> Set<
    Seq<char>,
> {
    inst.filter(|x: Seq<char>| !kept(g, inst, roots, x))
}

proof fn lemma_kept_root(g: Graph, inst: Set<Seq<char>>, roots: Set<Seq<char>>, r: Seq<char>)
    requires
        roots.contains(r),
    ensures
        kept(g, inst, roots, r),
{
    let p = seq![r];
    assert(is_kept_path(g, inst, roots, p));
}

proof fn lemma_kept_step(
    g: Graph,
    inst: Set<Seq<char>>,
    roots: Set<Seq<char>>,
    a: Seq<char>,
    b: Seq<char>,
)
    requires
        kept(g, inst, roots, a),
        inst_edge(g, inst, a, b),
    ensures
        kept(g, inst, roots, b),
{
    let p = choose|p: Seq<Seq<char>>| #[trigger] is_kept_path(g, inst, roots, p) && p.last() == a;
    let q = p.push(b);
    assert forall|i: int| 0 <= i < q.len() - 1 implies #[trigger] inst_edge(g, inst, q[i], q[i + 1]) by {
        if i < p.len() - 1 {
            assert(inst_edge(g, inst, p[i], p[i + 1]));
        }
    }
    assert(is_kept_path(g, inst, roots, q));
}

/// A set holding the roots and closed under installed dependencies holds the
/// end of every kept path.
proof fn lemma_kept_closed(
    g: Graph,
    inst: Set<Seq<char>>,
    roots: Set<Seq<char>>,
    set: Set<Seq<char>>,
    p: Seq<Seq<char>>,
    j: int,
)
    requires
        is_kept_path(g, inst, roots, p),
        0 <= j < p.len(),
        forall|r: Seq<char>| roots.contains(r) ==> set.contains(r),
        forall|a: Seq<char>, b: Seq<char>| set.contains(a) && #[trigger] inst_edge(g, inst, a, b) ==> set.contains(b),
    ensures
        set.contains(p[j]),
    decreases j,
{
    if j > 0 {
        lemma_kept_closed(g, inst, roots, set, p, j - 1);
        let k = j - 1;
        assert(inst_edge(g, inst, p[k], p[k + 1]));
    }
}

/// A duplicate-free list whose items lie in a finite set is no longer than it.
proof fn lemma_unique_in_set_bound(a: Seq<Seq<char>>, set: Set<Seq<char>>)
    requires
        set.finite(),
        a.no_duplicates(),
        forall|k: Seq<char>| a.contains(k) ==> set.contains(k),
    ensures
        a.len() <= set.len(),
{
    a.unique_seq_to_set();
    assert(a.to_set().subset_of(set));
    vstd::set_lib::lemma_len_subset(a.to_set(), set);
}

/// Installed formulae not reachable from any root through installed
/// dependencies, sorted.
pub fn compute_orphans(installed: &Vec<String>, deps: &DepGraph, roots: &Vec<String>) -> (res: Vec<
    String,
>)
    ensures
        sorted_strict(strs(res@)),
        strs(res@).to_set() == spec_orphans(deps@, strs(installed@).to_set(), strs(roots@).to_set()),
{
    let ghost g = deps@;
    let ghost inst = strs(installed@).to_set();
    let ghost rs = strs(roots@).to_set();
    let ghost univ = strs(roots@) + strs(installed@);
    let mut keep: Vec<String> = Vec::new();
    let mut stack: Vec<String> = Vec::new();
    let mut i: usize = 0;
    while i < roots.len()
        invariant
            i <= roots.len(),
            stack@ == roots@.take(i as int),
        decreases roots.len() - i,
    {
        stack.push(roots[i].clone());
        assert(stack@ =~= roots@.take(i + 1));
        i = i + 1;
    }
    assert(roots@.take(roots.len() as int) =~= roots@);
    proof {
        univ.lemma_cardinality_of_set();
        assert forall|k: Seq<char>| strs(stack@).contains(k) implies univ.contains(k) && kept(g, inst, rs, k) by {
            let j = choose|j: int| 0 <= j < strs(stack@).len() && strs(stack@)[j] == k;
            assert(univ[j] == k);
            assert(rs.contains(k));
            lemma_kept_root(g, inst, rs, k);
        }
    }
    while stack.len() > 0
        invariant
            univ == strs(roots@) + strs(installed@),
            univ.to_set().len() <= univ.len(),
            inst == strs(installed@).to_set(),
            rs == strs(roots@).to_set(),
            g == deps@,
            strs(keep@).no_duplicates(),
            forall|k: Seq<char>| #[trigger] strs(keep@).contains(k) ==> univ.contains(k) && kept(g, inst, rs, k),
            forall|k: Seq<char>| #[trigger] strs(stack@).contains(k) ==> univ.contains(k) && kept(g, inst, rs, k),
            forall|r: Seq<char>| rs.contains(r) ==> strs(keep@).contains(r) || strs(stack@).contains(r),
            forall|a: Seq<char>, b: Seq<char>|
                strs(keep@).contains(a) && #[trigger] inst_edge(g, inst, a, b) ==> strs(keep@).contains(b)
                    || strs(stack@).contains(b),
        decreases univ.len() - keep@.len(), stack@.len(),
    {
        let ghost stack0 = strs(stack@);
        let ghost keepb = strs(keep@);
        assert(forall|k: Seq<char>| #[trigger] stack0.contains(k) ==> univ.contains(k) && kept(g, inst, rs, k));
        assert(forall|k: Seq<char>| #[trigger] keepb.contains(k) ==> univ.contains(k) && kept(g, inst, rs, k));
        let name = stack.pop().unwrap();
        assert(stack0 =~= strs(stack@).push(name@));
        assert(stack0.contains(name@)) by {
            assert(stack0[stack0.len() - 1] == name@);
        }
        assert forall|k: Seq<char>| stack0.contains(k) implies strs(stack@).contains(k) || k == name@ by {
            let j = choose|j: int| 0 <= j < stack0.len() && stack0[j] == k;
            if j < stack0.len() - 1 {
                assert(strs(stack@)[j] == k);
            }
        }
        assert forall|k: Seq<char>| strs(stack@).contains(k) implies stack0.contains(k) by {
            let j = choose|j: int| 0 <= j < strs(stack@).len() && strs(stack@)[j] == k;
            assert(stack0[j] == k);
        }
        assert(univ.contains(name@) && kept(g, inst, rs, name@));
        assert forall|k: Seq<char>| #[trigger] strs(stack@).contains(k) implies univ.contains(k) && kept(g, inst, rs, k) by {
            assert(stack0.contains(k));
        }
        if contains_name(&keep, &name) {
            continue;
        }
        let ghost keep0 = strs(keep@);
        keep.push(name.clone());
        assert(strs(keep@) =~= keep0.push(name@));
        proof {
            assert forall|k: Seq<char>| strs(keep@).contains(k) implies keep0.contains(k) || k == name@ by {
                let j = choose|j: int| 0 <= j < strs(keep@).len() && strs(keep@)[j] == k;
                if j < keep0.len() {
                    assert(keep0[j] == k);
                }
            }
            assert forall|k: Seq<char>| keep0.contains(k) implies strs(keep@).contains(k) by {
                let j = choose|j: int| 0 <= j < keep0.len() && keep0[j] == k;
                assert(strs(keep@)[j] == k);
            }
            assert(strs(keep@).contains(name@)) by {
                assert(strs(keep@)[keep0.len() as int] == name@);
            }
            assert forall|k: Seq<char>| strs(keep@).contains(k) implies univ.to_set().contains(k) by {
                if k != name@ {
                    assert(keep0.contains(k));
                }
                assert(univ.contains(k));
            }
            lemma_unique_in_set_bound(strs(keep@), univ.to_set());
            assert forall|k: Seq<char>| #[trigger] strs(keep@).contains(k) implies univ.contains(k) && kept(g, inst, rs, k) by {
                if k != name@ {
                    assert(keep0.contains(k));
                }
            }
        }
        match deps.deps_of(&name) {
            Some(ds) => {
                let mut j: usize = 0;
                while j < ds.len()
                    invariant
                        j <= ds.len(),
                        strs(ds@) == g[name@],
                        g.contains_key(name@),
                        univ == strs(roots@) + strs(installed@),
                        inst == strs(installed@).to_set(),
                        rs == strs(roots@).to_set(),
                        g == deps@,
                        strs(keep@).contains(name@),
                        kept(g, inst, rs, name@),
                        forall|k: Seq<char>| #[trigger] strs(keep@).contains(k) ==> univ.contains(k) && kept(g, inst, rs, k),
                        forall|k: Seq<char>| #[trigger] strs(stack@).contains(k) ==> univ.contains(k) && kept(g, inst, rs, k),
                        forall|r: Seq<char>| rs.contains(r) ==> strs(keep@).contains(r) || strs(stack@).contains(r),
                        forall|a: Seq<char>, b: Seq<char>|
                            strs(keep@).contains(a) && a != name@ && #[trigger] inst_edge(g, inst, a, b)
                                ==> strs(keep@).contains(b) || strs(stack@).contains(b),
                        forall|jj: int| 0 <= jj < j && inst.contains(#[trigger] strs(ds@)[jj])
                            ==> strs(keep@).contains(strs(ds@)[jj]) || strs(stack@).contains(strs(ds@)[jj]),
                    decreases ds.len() - j,
                {
                    let d = &ds[j];
                    assert(strs(ds@)[j as int] == d@);
                    if contains_name(installed, d) && !contains_name(&keep, d) {
                        let ghost st0 = strs(stack@);
                        assert(forall|k: Seq<char>| #[trigger] st0.contains(k) ==> univ.contains(k) && kept(g, inst, rs, k));
                        stack.push(d.clone());
                        assert(strs(stack@) =~= st0.push(d@));
                        proof {
                            assert forall|k: Seq<char>| st0.contains(k) implies strs(stack@).contains(k) by {
                                let q = choose|q: int| 0 <= q < st0.len() && st0[q] == k;
                                assert(strs(stack@)[q] == k);
                            }
                            assert forall|k: Seq<char>| strs(stack@).contains(k) implies univ.contains(k) && kept(g, inst, rs, k) by {
                                let q = choose|q: int| 0 <= q < strs(stack@).len() && strs(stack@)[q] == k;
                                if q < st0.len() {
                                    assert(st0[q] == k);
                                    assert(st0.contains(k));
                                } else {
                                    let w = choose|w: int| 0 <= w < strs(installed@).len() && strs(installed@)[w] == d@;
                                    assert(univ[strs(roots@).len() + w] == d@);
                                    assert(inst.contains(d@));
                                    assert(g[name@].contains(d@)) by {
                                        assert(g[name@][j as int] == d@);
                                    }
                                    assert(inst_edge(g, inst, name@, d@));
                                    lemma_kept_step(g, inst, rs, name@, d@);
                                }
                            }
                            assert(strs(stack@).contains(d@)) by {
                                assert(strs(stack@)[st0.len() as int] == d@);
                            }
                        }
                    }
                    j = j + 1;
                }
                proof {
                    assert forall|a: Seq<char>, b: Seq<char>|
                        strs(keep@).contains(a) && #[trigger] inst_edge(g, inst, a, b) implies strs(keep@).contains(b)
                            || strs(stack@).contains(b) by {
                        if a == name@ {
                            let jj = choose|jj: int| 0 <= jj < g[name@].len() && g[name@][jj] == b;
                            assert(strs(ds@)[jj] == b);
                        }
                    }
                }
            },
            None => {},
        }
    }
    // `keep` now holds exactly the kept names.
    let mut orphans: Vec<String> = Vec::new();
    let mut k: usize = 0;
    while k < installed.len()
        invariant
            k <= installed.len(),
            inst == strs(installed@).to_set(),
            rs == strs(roots@).to_set(),
            g == deps@,
            forall|x: Seq<char>| #[trigger] strs(keep@).contains(x) ==> kept(g, inst, rs, x),
            forall|x: Seq<char>| rs.contains(x) ==> strs(keep@).contains(x),
            forall|a: Seq<char>, b: Seq<char>|
                strs(keep@).contains(a) && #[trigger] inst_edge(g, inst, a, b) ==> strs(keep@).contains(b),
            strs(orphans@).to_set() == strs(installed@).take(k as int).to_set().filter(
                |x: Seq<char>| !kept(g, inst, rs, x),
            ),
        decreases installed.len() - k,
    {
        let x = &installed[k];
        let ghost o0 = strs(orphans@);
        proof {
            strs(installed@).take(k as int).lemma_push_to_set_commute(x@);
            assert(strs(installed@).take(k + 1) =~= strs(installed@).take(k as int).push(x@));
        }
        if !contains_name(&keep, x) {
            orphans.push(x.clone());
            proof {
                o0.lemma_push_to_set_commute(x@);
                assert(strs(orphans@) =~= o0.push(x@));
                if kept(g, inst, rs, x@) {
                    let p = choose|p: Seq<Seq<char>>| #[trigger] is_kept_path(g, inst, rs, p) && p.last() == x@;
                    let set = strs(keep@).to_set();
                    lemma_kept_closed(g, inst, rs, set, p, p.len() - 1);
                }
            }
            assert(strs(orphans@).to_set() =~= strs(installed@).take(k + 1).to_set().filter(
                |x: Seq<char>| !kept(g, inst, rs, x),
            ));
        } else {
            assert(strs(orphans@).to_set() =~= strs(installed@).take(k + 1).to_set().filter(
                |x: Seq<char>| !kept(g, inst, rs, x),
            ));
        }
        k = k + 1;
    }
    assert(strs(installed@).take(installed.len() as int) =~= strs(installed@));
    sort_names(&orphans)
}

/// Law: orphans are installed; a root is never an orphan; and an installed
/// formula that stays keeps every installed dependency it has.
pub proof fn law_orphans(g: Graph, inst: Set<Seq<char>>, roots: Set<Seq<char>>)
    ensures
        spec_orphans(g, inst, roots).subset_of(inst),
        forall|r: Seq<char>| roots.contains(r) ==> !spec_orphans(g, inst, roots).contains(r),
        forall|a: Seq<char>, b: Seq<char>|
            inst.contains(a) && !spec_orphans(g, inst, roots).contains(a) && #[trigger] inst_edge(
                g,
                inst,
                a,
                b,
            ) ==> !spec_orphans(g, inst, roots).contains(b),
{
    assert forall|r: Seq<char>| roots.contains(r) implies !spec_orphans(g, inst, roots).contains(r) by {
        lemma_kept_root(g, inst, roots, r);
    }
    assert forall|a: Seq<char>, b: Seq<char>|
        inst.contains(a) && !spec_orphans(g, inst, roots).contains(a) && #[trigger] inst_edge(
            g,
            inst,
            a,
            b,
        ) implies !spec_orphans(g, inst, roots).contains(b) by {
        lemma_kept_step(g, inst, roots, a, b);
    }
}

/// Law: removing the orphans leaves none behind. Once every orphan is gone,
/// the same roots keep every formula that is still installed.
pub proof fn law_cleanup_complete(g: Graph, inst: Set<Seq<char>>, roots: Set<Seq<char>>)
    ensures
        spec_orphans(g, inst.difference(spec_orphans(g, inst, roots)), roots).is_empty(),
{
    let rest = inst.difference(spec_orphans(g, inst, roots));
    assert forall|x: Seq<char>| rest.contains(x) implies kept(g, rest, roots, x) by {
        let p = choose|p: Seq<Seq<char>>| #[trigger] is_kept_path(g, inst, roots, p) && p.last() == x;
        assert forall|i: int| 0 <= i < p.len() - 1 implies #[trigger] inst_edge(g, rest, p[i], p[i + 1]) by {
            assert(inst_edge(g, inst, p[i], p[i + 1]));
            let q = p.take(i + 2);
            assert forall|j: int| 0 <= j < q.len() - 1 implies #[trigger] inst_edge(g, inst, q[j], q[j + 1]) by {
                assert(q[j] == p[j] && q[j + 1] == p[j + 1]);
                assert(inst_edge(g, inst, p[j], p[j + 1]));
            }
            assert(is_kept_path(g, inst, roots, q));
            assert(q.last() == p[i + 1]);
        }
        assert(is_kept_path(g, rest, roots, p));
    }
    assert(spec_orphans(g, rest, roots) =~= Set::<Seq<char>>::empty());
}

/// Installed formulae that some installed formula declares as a dependency.
pub open spec fn depended(g: Graph, inst: Set<Seq<char>>) -> Set<Seq<char>> {
    inst.filter(
        |d: Seq<char>|
            exists|n: Seq<char>| #[trigger] inst.contains(n) && g.contains_key(n) && g[n].contains(d),
    )
}

/// The names of the record of requests, `None` when there is no record.
pub open spec fn record_names(stored: Option<&Vec<String>>) -> Option<Set<Seq<char>>> {
    match stored {
        Some(v) => Some(strs(v@).to_set()),
        None => None,
    }
}

/// The roots before dropping names no longer installed: the recorded
/// requests (even none), or, when there is no record yet, the installed
/// leaves.
pub open spec fn spec_base_roots(stored: Option<Set<Seq<char>>>, inst: Set<Seq<char>>, g: Graph) -> Set<
    Seq<char>,
> {
    match stored {
        Some(s) => s,
        None => inst.difference(depended(g, inst)),
    }
}

/// The requested roots: the base roots that are installed.
pub open spec fn spec_roots(stored: Option<Set<Seq<char>>>, inst: Set<Seq<char>>, g: Graph) -> Set<
    Seq<char>,
> {
    spec_base_roots(stored, inst, g).intersect(inst)
}

/// The record of requests as a cleanup leaves it: the record (or, when
/// there was none and something is installed, the bootstrapped one) without
/// the orphans it removed.
pub open spec fn record_after_cleanup(stored: Option<Set<Seq<char>>>, inst: Set<Seq<char>>, g: Graph) -> Option<
    Set<Seq<char>>,
> {
    let orphans = spec_orphans(g, inst, spec_roots(stored, inst, g));
    match stored {
        Some(s) => Some(s.difference(orphans)),
        None => if inst.is_empty() {
            None
        } else {
            Some(spec_base_roots(stored, inst, g).difference(orphans))
        },
    }
}

/// Law: a second cleanup finds nothing. After the orphans are removed from
/// the installed formulae and from the record of requests (bootstrapped first
/// when there was none), the roots recomputed from that record keep every
/// formula that is still installed.
pub proof fn law_cleanup_idempotent(stored: Option<Set<Seq<char>>>, inst: Set<Seq<char>>, g: Graph)
    ensures
        spec_orphans(
            g,
            inst.difference(spec_orphans(g, inst, spec_roots(stored, inst, g))),
            spec_roots(
                record_after_cleanup(stored, inst, g),
                inst.difference(spec_orphans(g, inst, spec_roots(stored, inst, g))),
                g,
            ),
        ).is_empty(),
{
    let roots = spec_roots(stored, inst, g);
    let orphans = spec_orphans(g, inst, roots);
    let rest = inst.difference(orphans);
    law_orphans(g, inst, roots);
    law_cleanup_complete(g, inst, roots);
    if stored is None && inst.is_empty() {
        assert(rest =~= Set::<Seq<char>>::empty());
        assert(spec_orphans(g, rest, spec_roots(record_after_cleanup(stored, inst, g), rest, g))
            =~= Set::<Seq<char>>::empty());
    } else {
        assert(spec_roots(record_after_cleanup(stored, inst, g), rest, g) =~= roots);
    }
}

/// Law: with no record of requests, the roots are exactly the installed
/// formulae that no installed formula lists anywhere among its dependencies;
/// with a record, they are the recorded names that are installed.
pub proof fn law_bootstrap_roots(stored: Option<Set<Seq<char>>>, inst: Set<Seq<char>>, g: Graph)
    ensures
        stored is None ==> forall|b: Seq<char>|
            #[trigger] spec_roots(stored, inst, g).contains(b) <==> (inst.contains(b) && forall|a: Seq<char>|
                inst.contains(a) && g.contains_key(a) ==> !(#[trigger] g[a].contains(b))),
        stored matches Some(s) ==> forall|b: Seq<char>|
            #[trigger] spec_roots(stored, inst, g).contains(b) <==> (s.contains(b) && inst.contains(b)),
{
    if stored is None {
        assert forall|b: Seq<char>|
            #[trigger] spec_roots(stored, inst, g).contains(b) <==> (inst.contains(b) && forall|a: Seq<char>|
                inst.contains(a) && g.contains_key(a) ==> !(#[trigger] g[a].contains(b))) by {
            if inst.contains(b) && !depended(g, inst).contains(b) {
                assert forall|a: Seq<char>| inst.contains(a) && g.contains_key(a) implies !(#[trigger] g[a].contains(b)) by {
                    if g[a].contains(b) {
                        assert(inst.contains(a) && g.contains_key(a) && g[a].contains(b));
                    }
                }
            }
        }
    }
}

/// The requested roots and whether they were bootstrapped.
pub struct RootsChoice {
    /// The roots of the dependency walk, all installed.
    pub roots: Vec<String>,
    /// The bootstrapped record of requests, to be saved, when there was no
    /// record and something is installed.
    pub bootstrap: Option<Vec<String>>,
}

/// Resolves the requested roots from the record of requests (`None` when
/// the record does not exist yet): the recorded requests, or, with no record,
/// the installed leaves (formulae nothing else installed depends on), which
/// become the record when something is installed; then entries no longer
/// installed are dropped. An existing record that holds no names is kept as
/// it is: nothing is then requested.
pub fn requested_roots(stored: Option<&Vec<String>>, installed: &Vec<String>, deps: &DepGraph) -> (res:
    RootsChoice)
    ensures
        strs(res.roots@).to_set() == spec_roots(record_names(stored), strs(installed@).to_set(), deps@),
        res.bootstrap is Some == (stored is None && installed@.len() > 0),
        res.bootstrap matches Some(b) ==> strs(b@).to_set() == spec_base_roots(
            record_names(stored),
            strs(installed@).to_set(),
            deps@,
        ),
{
    let ghost inst = strs(installed@).to_set();
    let ghost st = record_names(stored);
    let ghost g = deps@;
    let mut base: Vec<String> = Vec::new();
    let bootstrap = stored.is_none() && installed.len() > 0;
    if stored.is_none() {
        let mut i: usize = 0;
        while i < installed.len()
            invariant
                i <= installed.len(),
                inst == strs(installed@).to_set(),
                g == deps@,
                strs(base@).to_set() == strs(installed@).take(i as int).to_set().difference(
                    depended(g, inst),
                ),
            decreases installed.len() - i,
        {
            let n = &installed[i];
            // Does some installed formula depend on `n`?
            let mut needed = false;
            let mut j: usize = 0;
            while j < installed.len() && !needed
                invariant
                    j <= installed.len(),
                    i < installed.len(),
                    n@ == strs(installed@)[i as int],
                    inst == strs(installed@).to_set(),
                    g == deps@,
                    needed ==> depended(g, inst).contains(n@),
                    !needed ==> forall|q: int| 0 <= q < j ==> !(g.contains_key(strs(installed@)[q])
                        && g[strs(installed@)[q]].contains(n@)),
                decreases installed.len() - j, (if needed { 0int } else { 1int }),
            {
                let m = &installed[j];
                match deps.deps_of(m) {
                    Some(ds) => {
                        if contains_name(ds, n) {
                            needed = true;
                            proof {
                                assert(strs(installed@)[j as int] == m@);
                                assert(inst.contains(m@));
                                assert(strs(installed@)[i as int] == n@);
                                assert(inst.contains(n@));
                            }
                        }
                    },
                    None => {},
                }
                j = j + 1;
            }
            proof {
                assert(strs(installed@)[i as int] == n@);
                assert(inst.contains(n@));
                if !needed {
                    assert(!depended(g, inst).contains(n@)) by {
                        if depended(g, inst).contains(n@) {
                            let w = choose|w: Seq<char>| #[trigger] inst.contains(w) && g.contains_key(w) && g[w].contains(n@);
                            let q = choose|q: int| 0 <= q < strs(installed@).len() && strs(installed@)[q] == w;
                        }
                    }
                }
                strs(installed@).take(i as int).lemma_push_to_set_commute(n@);
                assert(strs(installed@).take(i + 1) =~= strs(installed@).take(i as int).push(n@));
            }
            let ghost b0 = strs(base@);
            if !needed {
                base.push(n.clone());
                proof {
                    b0.lemma_push_to_set_commute(n@);
                    assert(strs(base@) =~= b0.push(n@));
                }
            }
            assert(strs(base@).to_set() =~= strs(installed@).take(i + 1).to_set().difference(
                depended(g, inst),
            ));
            i = i + 1;
        }
        assert(strs(installed@).take(installed.len() as int) =~= strs(installed@));
    } else {
        let rec = stored.unwrap();
        let mut i: usize = 0;
        while i < rec.len()
            invariant
                i <= rec.len(),
                base@ == rec@.take(i as int),
            decreases rec.len() - i,
        {
            base.push(rec[i].clone());
            assert(base@ =~= rec@.take(i + 1));
            i = i + 1;
        }
        assert(base@ =~= rec@);
    }
    assert(strs(base@).to_set() == spec_base_roots(st, inst, g));
    // Drop entries no longer installed.
    let mut roots: Vec<String> = Vec::new();
    let mut k: usize = 0;
    while k < base.len()
        invariant
            k <= base.len(),
            inst == strs(installed@).to_set(),
            strs(roots@).to_set() == strs(base@).take(k as int).to_set().intersect(inst),
        decreases base.len() - k,
    {
        let x = &base[k];
        let ghost r0 = strs(roots@);
        proof {
            strs(base@).take(k as int).lemma_push_to_set_commute(x@);
            assert(strs(base@).take(k + 1) =~= strs(base@).take(k as int).push(x@));
        }
        if contains_name(installed, x) {
            roots.push(x.clone());
            proof {
                r0.lemma_push_to_set_commute(x@);
                assert(strs(roots@) =~= r0.push(x@));
                let q = choose|q: int| 0 <= q < strs(installed@).len() && strs(installed@)[q] == x@;
                assert(inst.contains(x@));
            }
        }
        assert(strs(roots@).to_set() =~= strs(base@).take(k + 1).to_set().intersect(inst));
        k = k + 1;
    }
    assert(strs(base@).take(base.len() as int) =~= strs(base@));
    RootsChoice { roots, bootstrap: if bootstrap { Some(base) } else { None } }
}

/// What `info` shows for one formula.
pub struct InfoReport {
    pub name: String,
    /// The stable version.
    pub version: String,
    pub desc: Option<String>,
    pub homepage: Option<String>,
    /// The dependencies joined by `", "`, or `none`.
    pub dependencies: String,
    /// The version of the keg it installs.
    pub keg_version: String,
    /// The keg directory; the formula is installed when it exists.
    pub keg: String,
}

/// The dependencies line: `none`, or the names joined by `", "`.
pub open spec fn spec_dependencies_line(deps: Seq<Seq<char>>) -> Seq<char> {
    if deps.len() == 0 {
        "none"@
    } else {
        join(deps, ", "@)
    }
}

/// The lines of texts joined by a separator.
fn join_strings(list: &Vec<String>, sep: &str) -> (res: String)
    ensures
        res@ == join(strs(list@), sep@),
{
    let mut parts: Vec<Vec<char>> = Vec::new();
    let mut i: usize = 0;
    while i < list.len()
        invariant
            i <= list.len(),
            parts@.map_values(|v: Vec<char>| v@) == strs(list@).take(i as int),
        decreases list.len() - i,
    {
        let ghost p0 = parts@.map_values(|v: Vec<char>| v@);
        parts.push(chars_of(list[i].as_str()));
        assert(parts@.map_values(|v: Vec<char>| v@) =~= p0.push(list@[i as int]@));
        assert(strs(list@).take(i + 1) =~= strs(list@).take(i as int).push(list@[i as int]@));
        i = i + 1;
    }
    assert(strs(list@).take(list.len() as int) =~= strs(list@));
    let j = join_exec(&parts, &chars_of(sep));
    string_of(&j)
}

/// Details of one formula; `NotFound` when the index has no formula of that name.
pub fn info(cfg: &Config, formulae: Vec<Formula>, name: &str) -> (res: Result<InfoReport, FeheimError>)
    ensures
        (match first_named(formulae@, name@) {
            None => (res matches Err(FeheimError::NotFound(n)) && n@ == name@),
            Some(i) => (res matches Ok(r) && r.name@ == formulae@[i].name@ && r.version@
                == spec_stable_version(formulae@[i]) && r.desc == formulae@[i].desc && r.homepage
                == formulae@[i].homepage && r.dependencies@ == spec_dependencies_line(
                strs(formulae@[i].dependencies@),
            ) && r.keg_version@ == spec_keg_version(formulae@[i]) && r.keg@ == spec_keg(
                cfg.prefix@,
                formulae@[i].name@,
                spec_keg_version(formulae@[i]),
            )),
        }),
{
    match crate::api::find(formulae, name) {
        None => Err(FeheimError::NotFound(name.to_owned())),
        Some(f) => {
            let version = f.stable_version();
            let deps = if f.dependencies.len() == 0 {
                string_of(&chars_of("none"))
            } else {
                join_strings(&f.dependencies, ", ")
            };
            let kv = keg_version(&f);
            let keg = cfg.keg(f.name.as_str(), kv.as_str());
            Ok(
                InfoReport {
                    name: f.name,
                    version,
                    desc: f.desc,
                    homepage: f.homepage,
                    dependencies: deps,
                    keg_version: kv,
                    keg,
                },
            )
        },
    }
}

/// The names of the given (name, versions) entries.
pub open spec fn entry_names(es: Seq<(String, Vec<String>)>) -> Seq<Seq<char>> {
    es.map_values(|e: (String, Vec<String>)| e.0@)
}

/// The index of the first entry named `n`, if any.
pub open spec fn first_entry(es: Seq<(String, Vec<String>)>, n: Seq<char>) -> int
    decreases es.len(),
{
    if es.len() == 0 {
        -1
    } else if first_entry(es.drop_last(), n) >= 0 {
        first_entry(es.drop_last(), n)
    } else if es.last().0@ == n {
        es.len() - 1
    } else {
        -1
    }
}

proof fn lemma_first_entry(es: Seq<(String, Vec<String>)>, n: Seq<char>, i: int)
    requires
        0 <= i < es.len(),
        es[i].0@ == n,
        forall|j: int| 0 <= j < i ==> es[j].0@ != n,
    ensures
        first_entry(es, n) == i,
    decreases es.len(),
{
    if i < es.len() - 1 {
        lemma_first_entry(es.drop_last(), n, i);
    } else {
        lemma_first_entry_absent(es.drop_last(), n);
    }
}

proof fn lemma_first_entry_absent(es: Seq<(String, Vec<String>)>, n: Seq<char>)
    requires
        forall|j: int| 0 <= j < es.len() ==> es[j].0@ != n,
    ensures
        first_entry(es, n) == -1,
    decreases es.len(),
{
    if es.len() > 0 {
        lemma_first_entry_absent(es.drop_last(), n);
    }
}

/// The rows of `list`: each installed name, in order, with its versions in
/// order joined by `", "`.
pub open spec fn spec_list_rows(es: Seq<(String, Vec<String>)>) -> Seq<(Seq<char>, Seq<char>)> {
    sorted_of(entry_names(es).to_set()).map_values(
        |n: Seq<char>|
            (n, join(sorted_of(strs(es[first_entry(es, n)].1@).to_set()), ", "@)),
    )
}

/// The installed formulae (each with its installed versions, as found in
/// the Cellar) as rows of name and versions, sorted by name.
pub fn list(entries: &Vec<(String, Vec<String>)>) -> (res: Vec<(String, String)>)
    ensures
        res@.map_values(|r: (String, String)| (r.0@, r.1@)) == spec_list_rows(entries@),
{
    let mut names: Vec<String> = Vec::new();
    let mut i: usize = 0;
    while i < entries.len()
        invariant
            i <= entries.len(),
            strs(names@) == entry_names(entries@).take(i as int),
        decreases entries.len() - i,
    {
        let ghost n0 = strs(names@);
        names.push(entries[i].0.clone());
        assert(strs(names@) =~= n0.push(entries@[i as int].0@));
        assert(entry_names(entries@).take(i + 1) =~= entry_names(entries@).take(i as int).push(
            entries@[i as int].0@,
        ));
        i = i + 1;
    }
    assert(entry_names(entries@).take(entries.len() as int) =~= entry_names(entries@));
    let sorted = sort_names(&names);
    proof {
        crate::state::lemma_sorted_of(entry_names(entries@));
        crate::state::lemma_sorted_unique(strs(sorted@), sorted_of(entry_names(entries@).to_set()));
    }
    let ghost sv = strs(sorted@);
    let mut rows: Vec<(String, String)> = Vec::new();
    let mut k: usize = 0;
    while k < sorted.len()
        invariant
            k <= sorted.len(),
            sv == strs(sorted@),
            sv == sorted_of(entry_names(entries@).to_set()),
            sv.to_set() == entry_names(entries@).to_set(),
            rows@.map_values(|r: (String, String)| (r.0@, r.1@)) == spec_list_rows(entries@).take(k as int),
        decreases sorted.len() - k,
    {
        let n = &sorted[k];
        // The first entry of that name.
        let mut j: usize = 0;
        assert(sv.to_set().contains(sv[k as int]));
        assert(entry_names(entries@).contains(n@));
        let ghost w = choose|w: int| 0 <= w < entry_names(entries@).len() && entry_names(entries@)[w] == n@;
        while j < entries.len() && entries[j].0 != *n
            invariant
                j <= entries.len(),
                0 <= w < entries.len(),
                entries@[w].0@ == n@,
                forall|q: int| 0 <= q < j ==> entries@[q].0@ != n@,
            decreases entries.len() - j,
        {
            j = j + 1;
        }
        assert(j < entries.len());
        proof {
            lemma_first_entry(entries@, n@, j as int);
        }
        let vs = sort_names(&entries[j].1);
        proof {
            crate::state::lemma_sorted_of(strs(entries@[j as int].1@));
            crate::state::lemma_sorted_unique(strs(vs@), sorted_of(strs(entries@[j as int].1@).to_set()));
        }
        let line = join_strings(&vs, ", ");
        let ghost r0 = rows@.map_values(|r: (String, String)| (r.0@, r.1@));
        rows.push((n.clone(), line));
        assert(rows@.map_values(|r: (String, String)| (r.0@, r.1@)) =~= r0.push((n@, line@)));
        assert(spec_list_rows(entries@).take(k + 1) =~= spec_list_rows(entries@).take(k as int).push(
            spec_list_rows(entries@)[k as int],
        ));
        k = k + 1;
    }
    assert(spec_list_rows(entries@).take(sorted.len() as int) =~= spec_list_rows(entries@));
    rows
}

} // verus!
