//! Build planning for module-aware builds.
//!
//! `BuildPlan` flattens a recursive module graph into a dependency DAG and
//! orders it so that every module comes after the modules it depends on.

use vstd::prelude::*;

use crate::cxon::{CxonConfig, CxonConfigView, clone_strings};
use crate::error::BuildError;
use crate::paths::{
    contains_parent_component, has_parent_component, is_single_name, join_path, path_file_name, spec_file_name,
    spec_join,
};
use crate::project_graph::{
    ConfigStoreView, ModuleGraph, child_paths, config_for, id_at, is_path_walk, is_resolved,
    lemma_loaded_graph_is_acyclic, lemma_walk_push_child, unfolds,
};

verus! {

/// One buildable module of a plan.
pub struct TargetPlan {
    /// Unique module identifier (canonical module root path).
    pub id: String,
    /// Fully resolved module config used during build execution.
    pub config: CxonConfig,
    /// Direct dependencies of this module.
    pub deps: Vec<String>,
}

pub struct TargetPlanView {
    pub id: Seq<char>,
    pub config: CxonConfigView,
    pub deps: Seq<Seq<char>>,
}

impl View for TargetPlan {
    type V = TargetPlanView;

    open spec fn view(&self) -> TargetPlanView {
        TargetPlanView { id: self.id@, config: self.config@, deps: self.deps.deep_view() }
    }
}

impl DeepView for TargetPlan {
    type V = TargetPlanView;

    open spec fn deep_view(&self) -> TargetPlanView {
        self@
    }
}

impl Clone for TargetPlan {
    fn clone(&self) -> (r: Self)
        ensures
            r@ == self@,
    {
        TargetPlan {
            id: self.id.clone(),
            config: self.config.clone(),
            deps: clone_strings(&self.deps),
        }
    }
}

/// A flat, ordered plan of every module to build.
pub struct BuildPlan {
    pub root_id: String,
    pub targets: Vec<TargetPlan>,
    /// Topological order where dependencies always appear before dependents.
    pub order: Vec<String>,
}

pub struct BuildPlanView {
    pub root_id: Seq<char>,
    pub targets: Seq<TargetPlanView>,
    pub order: Seq<Seq<char>>,
}

impl View for BuildPlan {
    type V = BuildPlanView;

    open spec fn view(&self) -> BuildPlanView {
        BuildPlanView {
            root_id: self.root_id@,
            targets: self.targets.deep_view(),
            order: self.order.deep_view(),
        }
    }
}

impl Clone for BuildPlan {
    fn clone(&self) -> (r: Self)
        ensures
            r@ == self@,
    {
        let mut targets: Vec<TargetPlan> = Vec::new();
        let mut i: usize = 0;
        while i < self.targets.len()
            invariant
                i <= self.targets@.len(),
                targets@.len() == i,
                forall|k: int| 0 <= k < i ==> #[trigger] targets@[k]@ == self.targets@[k]@,
            decreases self.targets.len() - i,
        {
            targets.push(self.targets[i].clone());
            i = i + 1;
        }
        assert(targets.deep_view() =~= self.targets.deep_view());
        BuildPlan { root_id: self.root_id.clone(), targets, order: clone_strings(&self.order) }
    }
}

// ---------------------------------------------------------------------------
// The dependency graph of a sequence of targets.
// ---------------------------------------------------------------------------

/// `ts` holds a target with identifier `id`.
pub open spec fn has_target(ts: Seq<TargetPlanView>, id: Seq<char>) -> bool {
    exists|i: int| 0 <= i < ts.len() && #[trigger] ts[i].id == id
}

/// No two targets of `ts` share an identifier.
pub open spec fn unique_ids(ts: Seq<TargetPlanView>) -> bool {
    forall|i: int, j: int| 0 <= i < ts.len() && 0 <= j < ts.len() && #[trigger] ts[i].id == #[trigger] ts[j].id ==> i == j
}

/// Every dependency named by a target of `ts` is itself a target of `ts`.
#[verifier::opaque]
pub open spec fn deps_closed(ts: Seq<TargetPlanView>) -> bool {
    forall|i: int, k: int| 0 <= i < ts.len() && 0 <= k < ts[i].deps.len() ==> has_target(ts, #[trigger] ts[i].deps[k])
}

/// Module `a` depends directly on module `b`.
pub open spec fn edge(ts: Seq<TargetPlanView>, a: Seq<char>, b: Seq<char>) -> bool {
    exists|i: int| 0 <= i < ts.len() && #[trigger] ts[i].id == a && ts[i].deps.contains(b)
}

/// A non-empty sequence of modules, each depending directly on the next.
#[verifier::opaque]
pub open spec fn is_walk(ts: Seq<TargetPlanView>, w: Seq<Seq<char>>) -> bool {
    &&& w.len() > 0
    &&& forall|k: int| 0 <= k < w.len() - 1 ==> edge(ts, #[trigger] w[k], w[k + 1])
}

/// `x` can be reached from `root` by following dependencies.
pub open spec fn reachable(ts: Seq<TargetPlanView>, root: Seq<char>, x: Seq<char>) -> bool {
    exists|w: Seq<Seq<char>>| #[trigger] is_walk(ts, w) && w[0] == root && w.last() == x
}

/// A walk from `root` whose last module already occurs earlier on it: a
/// cyclic dependency reachable from `root`.
pub open spec fn is_cyclic_walk(ts: Seq<TargetPlanView>, root: Seq<char>, w: Seq<Seq<char>>) -> bool {
    &&& is_walk(ts, w)
    &&& w[0] == root
    &&& exists|k: int| 0 <= k < w.len() - 1 && #[trigger] w[k] == w.last()
}

/// Every dependency of a module of `order` occurs earlier in `order`.
pub open spec fn is_topological(ts: Seq<TargetPlanView>, order: Seq<Seq<char>>) -> bool {
    forall|i: int, d: Seq<char>| 0 <= i < order.len() && #[trigger] edge(ts, order[i], d) ==> exists|j: int| 0 <= j < i && #[trigger] order[j] == d
}

// ---------------------------------------------------------------------------
// Collecting the targets of a module graph.
// ---------------------------------------------------------------------------

/// The target that one node of the module graph stands for.
pub open spec fn plan_of(g: ModuleGraph) -> TargetPlanView {
    TargetPlanView {
        id: g.id@,
        config: g.config@,
        deps: g.children@.map_values(|c: ModuleGraph| c.id@),
    }
}

/// Depth-first collection: a node whose identifier is already collected is
/// skipped together with everything below it; otherwise its target is
/// appended and its children are collected in order.
pub open spec fn collect_spec(g: ModuleGraph, acc: Seq<TargetPlanView>) -> Seq<TargetPlanView>
    decreases g, 1int,
{
    if has_target(acc, g.id@) {
        acc
    } else {
        collect_all(g.children@, acc.push(plan_of(g)))
    }
}

/// Collection over a sequence of sibling nodes, from first to last.
pub open spec fn collect_all(gs: Seq<ModuleGraph>, acc: Seq<TargetPlanView>) -> Seq<TargetPlanView>
    decreases gs, 0int,
{
    if gs.len() == 0 {
        acc
    } else {
        collect_all(gs.drop_first(), collect_spec(gs[0], acc))
    }
}

/// The first target of `ts` with identifier `id`.
#[verifier::opaque]
pub open spec fn first_target(ts: Seq<TargetPlanView>, id: Seq<char>) -> TargetPlanView {
    ts[choose|i: int| 0 <= i < ts.len() && ts[i].id == id && forall|j: int| 0 <= j < i ==> #[trigger] ts[j].id != id]
}

/// A sequence holding `id` holds it a first time.
proof fn lemma_first_index(ts: Seq<TargetPlanView>, id: Seq<char>)
    requires
        has_target(ts, id),
    ensures
        exists|c: int| 0 <= c < ts.len() && ts[c].id == id && forall|j: int| 0 <= j < c ==> #[trigger] ts[j].id != id,
{
    let i = choose|i: int| 0 <= i < ts.len() && #[trigger] ts[i].id == id;
    lemma_first_index_below(ts, id, i);
}

proof fn lemma_first_index_below(ts: Seq<TargetPlanView>, id: Seq<char>, i: int)
    requires
        0 <= i < ts.len(),
        ts[i].id == id,
    ensures
        exists|c: int| 0 <= c < ts.len() && ts[c].id == id && forall|j: int| 0 <= j < c ==> #[trigger] ts[j].id != id,
    decreases i,
{
    if exists|j: int| 0 <= j < i && #[trigger] ts[j].id == id {
        let j = choose|j: int| 0 <= j < i && #[trigger] ts[j].id == id;
        lemma_first_index_below(ts, id, j);
    } else {
        assert(forall|j: int| 0 <= j < i ==> #[trigger] ts[j].id != id);
    }
}

/// The first target with identifier `id` is a target of `ts` and has that
/// identifier.
pub proof fn lemma_first_target_member(ts: Seq<TargetPlanView>, id: Seq<char>)
    requires
        has_target(ts, id),
    ensures
        exists|c: int| 0 <= c < ts.len() && ts[c] == first_target(ts, id) && ts[c].id == id,
{
    reveal(first_target);
    lemma_first_index(ts, id);
    let c = choose|c: int| 0 <= c < ts.len() && ts[c].id == id && forall|j: int| 0 <= j < c ==> #[trigger] ts[j].id != id;
    assert(ts[c] == first_target(ts, id));
}

/// Finds the position of the first target with identifier `id`.
pub(crate) fn find_target(targets: &Vec<TargetPlan>, id: &str) -> (r: Option<usize>)
    ensures
        match r {
            Some(i) => i < targets@.len() && targets@[i as int]@ == first_target(targets.deep_view(), id@)
                && targets@[i as int].id@ == id@ && has_target(targets.deep_view(), id@),
            None => !has_target(targets.deep_view(), id@),
        },
{
    let ghost ts = targets.deep_view();
    let mut i: usize = 0;
    while i < targets.len()
        invariant
            ts == targets.deep_view(),
            i <= targets@.len(),
            forall|k: int| 0 <= k < i ==> #[trigger] ts[k].id != id@,
        decreases targets.len() - i,
    {
        assert(ts[i as int] == targets@[i as int]@);
        if crate::paths::str_eq(targets[i].id.as_str(), id) {
            proof {
                reveal(first_target);
                let c = choose|c: int| 0 <= c < ts.len() && ts[c].id == id@ && forall|j: int| 0 <= j < c ==> #[trigger] ts[j].id != id@;
                assert(ts[i as int].id == id@ && forall|j: int| 0 <= j < i ==> #[trigger] ts[j].id != id@);
                if c < i {
                    assert(ts[c].id != id@);
                } else if c > i {
                    assert(ts[i as int].id != id@);
                }
            }
            return Some(i);
        }
        i = i + 1;
    }
    None
}

fn plan_target(node: &ModuleGraph) -> (r: TargetPlan)
    ensures
        r@ == plan_of(*node),
{
    let mut deps: Vec<String> = Vec::new();
    let mut i: usize = 0;
    while i < node.children.len()
        invariant
            i <= node.children@.len(),
            deps@.len() == i,
            forall|k: int| 0 <= k < i ==> #[trigger] deps@[k]@ == node.children@[k].id@,
        decreases node.children.len() - i,
    {
        deps.push(node.children[i].id.clone());
        i = i + 1;
    }
    assert(deps.deep_view() =~= node.children@.map_values(|c: ModuleGraph| c.id@));
    TargetPlan { id: node.id.clone(), config: node.config.clone(), deps }
}

/// DFS collection from graph nodes into the target table.
fn collect_targets(node: &ModuleGraph, targets: &mut Vec<TargetPlan>)
    ensures
        final(targets).deep_view() == collect_spec(*node, old(targets).deep_view()),
    decreases node,
{
    match find_target(targets, node.id.as_str()) {
        Some(k) => {
            assert(targets.deep_view()[k as int].id == node.id@);
            return;
        },
        None => {},
    }
    let plan = plan_target(node);
    targets.push(plan);
    assert(targets.deep_view() =~= old(targets).deep_view().push(plan_of(*node)));
    let ghost acc0 = targets.deep_view();
    assert(node.children@.skip(0) =~= node.children@);
    let mut i: usize = 0;
    while i < node.children.len()
        invariant
            i <= node.children@.len(),
            collect_all(node.children@, acc0) == collect_all(node.children@.skip(i as int), targets.deep_view()),
        decreases node.children.len() - i,
    {
        proof {
            assert(node.children@.skip(i as int).drop_first() =~= node.children@.skip(i + 1));
            assert(node.children@.skip(i as int)[0] == node.children@[i as int]);
        }
        collect_targets(&node.children[i], targets);
        i = i + 1;
    }
    assert(node.children@.skip(i as int) =~= Seq::<ModuleGraph>::empty());
}


proof fn lemma_has_target_prefix(a: Seq<TargetPlanView>, b: Seq<TargetPlanView>, id: Seq<char>)
    requires
        a.len() <= b.len(),
        forall|i: int| 0 <= i < a.len() ==> #[trigger] b[i] == a[i],
        has_target(a, id),
    ensures
        has_target(b, id),
{
    let i = choose|i: int| 0 <= i < a.len() && #[trigger] a[i].id == id;
    assert(b[i].id == id);
}

/// Collection only appends, keeps identifiers distinct, collects the node
/// itself, and every target it appends names only collected dependencies.
proof fn lemma_collect(g: ModuleGraph, acc: Seq<TargetPlanView>)
    requires
        unique_ids(acc),
    ensures
        collect_spec(g, acc).len() >= acc.len(),
        forall|i: int| 0 <= i < acc.len() ==> #[trigger] collect_spec(g, acc)[i] == acc[i],
        unique_ids(collect_spec(g, acc)),
        has_target(collect_spec(g, acc), g.id@),
        forall|i: int, k: int| acc.len() <= i < collect_spec(g, acc).len() && 0 <= k < collect_spec(g, acc)[i].deps.len()
            ==> has_target(collect_spec(g, acc), #[trigger] collect_spec(g, acc)[i].deps[k]),
    decreases g, 1int,
{
    let r = collect_spec(g, acc);
    if has_target(acc, g.id@) {
    } else {
        let acc1 = acc.push(plan_of(g));
        assert(unique_ids(acc1)) by {
            assert forall|i: int, j: int| 0 <= i < acc1.len() && 0 <= j < acc1.len() && #[trigger] acc1[i].id == #[trigger] acc1[j].id implies i == j by {
                if i < acc.len() && j < acc.len() {
                    assert(acc1[i] == acc[i] && acc1[j] == acc[j]);
                } else if i < acc.len() {
                    assert(acc1[i] == acc[i]);
                    assert(acc[i].id == g.id@);
                } else if j < acc.len() {
                    assert(acc1[j] == acc[j]);
                    assert(acc[j].id == g.id@);
                }
            }
        }
        lemma_collect_all(g.children@, acc1);
        assert(r == collect_all(g.children@, acc1));
        assert(r[acc.len() as int] == acc1[acc.len() as int]);
        assert(r[acc.len() as int].id == g.id@);
        assert forall|i: int| 0 <= i < acc.len() implies #[trigger] r[i] == acc[i] by {
            assert(r[i] == acc1[i]);
        }
        assert forall|i: int, k: int| acc.len() <= i < r.len() && 0 <= k < r[i].deps.len() implies has_target(r, #[trigger] r[i].deps[k]) by {
            if i == acc.len() {
                assert(r[i] == plan_of(g));
                assert(r[i].deps[k] == g.children@[k].id@);
            }
        }
    }
}

proof fn lemma_collect_all(gs: Seq<ModuleGraph>, acc: Seq<TargetPlanView>)
    requires
        unique_ids(acc),
    ensures
        collect_all(gs, acc).len() >= acc.len(),
        forall|i: int| 0 <= i < acc.len() ==> #[trigger] collect_all(gs, acc)[i] == acc[i],
        unique_ids(collect_all(gs, acc)),
        forall|j: int| 0 <= j < gs.len() ==> has_target(collect_all(gs, acc), #[trigger] gs[j].id@),
        forall|i: int, k: int| acc.len() <= i < collect_all(gs, acc).len() && 0 <= k < collect_all(gs, acc)[i].deps.len()
            ==> has_target(collect_all(gs, acc), #[trigger] collect_all(gs, acc)[i].deps[k]),
    decreases gs, 0int,
{
    if gs.len() == 0 {
    } else {
        let r1 = collect_spec(gs[0], acc);
        lemma_collect(gs[0], acc);
        lemma_collect_all(gs.drop_first(), r1);
        let r = collect_all(gs, acc);
        assert(r == collect_all(gs.drop_first(), r1));
        assert forall|i: int| 0 <= i < acc.len() implies #[trigger] r[i] == acc[i] by {
            assert(r[i] == r1[i]);
        }
        assert forall|j: int| 0 <= j < gs.len() implies has_target(r, #[trigger] gs[j].id@) by {
            if j == 0 {
                lemma_has_target_prefix(r1, r, gs[0].id@);
            } else {
                assert(gs[j] == gs.drop_first()[j - 1]);
            }
        }
        assert forall|i: int, k: int| acc.len() <= i < r.len() && 0 <= k < r[i].deps.len() implies has_target(r, #[trigger] r[i].deps[k]) by {
            if i < r1.len() {
                assert(r[i] == r1[i]);
                assert(has_target(r1, r1[i].deps[k]));
                lemma_has_target_prefix(r1, r, r1[i].deps[k]);
            }
        }
    }
}

/// The targets collected from a whole graph: distinct, closed under
/// dependencies, and headed by the root.
proof fn lemma_collect_root(root: ModuleGraph)
    ensures
        unique_ids(collect_spec(root, Seq::empty())),
        deps_closed(collect_spec(root, Seq::empty())),
        collect_spec(root, Seq::empty()).len() >= 1,
        collect_spec(root, Seq::empty())[0].id == root.id@,
{
    let e = Seq::<TargetPlanView>::empty();
    assert(!has_target(e, root.id@));
    lemma_collect(root, e);
    let acc1 = e.push(plan_of(root));
    lemma_collect_all(root.children@, acc1);
    assert(collect_spec(root, e)[0] == acc1[0]);
    reveal(deps_closed);
}

// ---------------------------------------------------------------------------
// Ordering the targets.
// ---------------------------------------------------------------------------

/// `order` lists distinct targets, every dependency before its dependents.
#[verifier::opaque]
pub open spec fn order_inv(ts: Seq<TargetPlanView>, order: Seq<Seq<char>>) -> bool {
    &&& order.no_duplicates()
    &&& forall|i: int| 0 <= i < order.len() ==> has_target(ts, #[trigger] order[i])
    &&& is_topological(ts, order)
}

/// A walk from `id` ends at `x`, where `x` is either under visit on `stack`
/// or met earlier on the walk: a cycle is closed at `x`.
#[verifier::opaque]
pub open spec fn cycle_witness(ts: Seq<TargetPlanView>, id: Seq<char>, stack: Seq<Seq<char>>, x: Seq<char>) -> bool {
    exists|w: Seq<Seq<char>>| #[trigger] is_walk(ts, w) && w[0] == id && w.last() == x
        && (stack.contains(x) || exists|k: int| 0 <= k < w.len() - 1 && #[trigger] w[k] == x)
}

/// A module already under visit closes a cycle by itself.
proof fn lemma_cycle_on_stack(ts: Seq<TargetPlanView>, id: Seq<char>, stack: Seq<Seq<char>>)
    requires
        stack.contains(id),
    ensures
        cycle_witness(ts, id, stack, id),
{
    reveal(cycle_witness);
    lemma_walk_singleton(ts, id);
    assert(seq![id][0] == id && seq![id].last() == id);
}

/// A cycle met below a dependency `dep` of `id`, with `id` pushed on the
/// stack, is a cycle met from `id`.
proof fn lemma_cycle_prepend(ts: Seq<TargetPlanView>, id: Seq<char>, dep: Seq<char>, stack: Seq<Seq<char>>, x: Seq<char>)
    requires
        edge(ts, id, dep),
        cycle_witness(ts, dep, stack.push(id), x),
    ensures
        cycle_witness(ts, id, stack, x),
{
    reveal(cycle_witness);
    let w = choose|w: Seq<Seq<char>>| #[trigger] is_walk(ts, w) && w[0] == dep && w.last() == x
        && (stack.push(id).contains(x) || exists|k: int| 0 <= k < w.len() - 1 && #[trigger] w[k] == x);
    lemma_walk_prepend(ts, id, w);
    let w2 = seq![id] + w;
    assert(w.len() > 0) by {
        reveal(is_walk);
    }
    if stack.push(id).contains(x) {
        let i = choose|i: int| 0 <= i < stack.push(id).len() && stack.push(id)[i] == x;
        if i < stack.len() {
            assert(stack[i] == x);
            assert(stack.contains(x));
        } else {
            assert(w2[0] == x);
        }
    } else {
        let k = choose|k: int| 0 <= k < w.len() - 1 && #[trigger] w[k] == x;
        assert(w2[k + 1] == w[k]);
    }
}

pub open spec fn is_prefix(a: Seq<Seq<char>>, b: Seq<Seq<char>>) -> bool {
    a.len() <= b.len() && b.subrange(0, a.len() as int) == a
}

/// A sequence of distinct identifiers of targets of `ts` is no longer
/// than `ts`.
proof fn lemma_distinct_ids_bounded(s: Seq<Seq<char>>, ts: Seq<TargetPlanView>)
    requires
        s.no_duplicates(),
        forall|i: int| 0 <= i < s.len() ==> has_target(ts, #[trigger] s[i]),
    ensures
        s.len() <= ts.len(),
{
    let ids = ts.map_values(|t: TargetPlanView| t.id);
    assert forall|x: Seq<char>| s.to_set().contains(x) implies ids.to_set().contains(x) by {
        let i = choose|i: int| 0 <= i < s.len() && s[i] == x;
        assert(has_target(ts, s[i]));
        let j = choose|j: int| 0 <= j < ts.len() && #[trigger] ts[j].id == s[i];
        assert(ids[j] == x);
    }
    s.unique_seq_to_set();
    ids.lemma_cardinality_of_set();
    vstd::set_lib::lemma_len_subset(s.to_set(), ids.to_set());
}

fn contains_id(v: &Vec<String>, id: &str) -> (r: bool)
    ensures
        r == v.deep_view().contains(id@),
{
    let mut i: usize = 0;
    while i < v.len()
        invariant
            i <= v@.len(),
            forall|k: int| 0 <= k < i ==> #[trigger] v@[k]@ != id@,
        decreases v.len() - i,
    {
        if crate::paths::str_eq(v[i].as_str(), id) {
            assert(v.deep_view()[i as int] == id@);
            return true;
        }
        i = i + 1;
    }
    proof {
        if v.deep_view().contains(id@) {
            let k = choose|k: int| 0 <= k < v.deep_view().len() && v.deep_view()[k] == id@;
            assert(v@[k]@ == id@);
        }
    }
    false
}

proof fn lemma_prefix_trans(a: Seq<Seq<char>>, b: Seq<Seq<char>>, c: Seq<Seq<char>>)
    requires
        is_prefix(a, b),
        is_prefix(b, c),
    ensures
        is_prefix(a, c),
{
    assert(c.subrange(0, a.len() as int) =~= a) by {
        assert forall|j: int| 0 <= j < a.len() implies c[j] == a[j] by {
            assert(c.subrange(0, b.len() as int)[j] == c[j]);
            assert(b.subrange(0, a.len() as int)[j] == b[j]);
        }
    }
}

proof fn lemma_prefix_contains(a: Seq<Seq<char>>, b: Seq<Seq<char>>, x: Seq<char>)
    requires
        is_prefix(a, b),
        a.contains(x),
    ensures
        b.contains(x),
{
    let j = choose|j: int| 0 <= j < a.len() && a[j] == x;
    assert(b.subrange(0, a.len() as int)[j] == b[j]);
}

/// Appending a module whose dependencies are all already ordered keeps the
/// order invariant.
proof fn lemma_order_push(
    ts: Seq<TargetPlanView>,
    mid: Seq<Seq<char>>,
    id: Seq<char>,
    idx: int,
)
    requires
        order_inv(ts, mid),
        unique_ids(ts),
        !mid.contains(id),
        0 <= idx < ts.len(),
        ts[idx].id == id,
        forall|k: int| 0 <= k < ts[idx].deps.len() ==> mid.contains(#[trigger] ts[idx].deps[k]),
    ensures
        order_inv(ts, mid.push(id)),
        is_prefix(mid, mid.push(id)),
        mid.push(id).contains(id),
{
    reveal(order_inv);
    let o = mid.push(id);
    assert forall|a: int, b: int| 0 <= a < o.len() && 0 <= b < o.len() && a != b implies o[a] != o[b] by {
        if a < mid.len() && b < mid.len() {
        } else if a < mid.len() {
            assert(mid.contains(o[a]));
        } else {
            assert(mid.contains(o[b]));
        }
    }
    assert forall|j: int| 0 <= j < o.len() implies has_target(ts, #[trigger] o[j]) by {
        if j < mid.len() {
            assert(o[j] == mid[j]);
        } else {
            assert(ts[idx].id == o[j]);
        }
    }
    assert forall|a: int, d: Seq<char>| 0 <= a < o.len() && #[trigger] edge(ts, o[a], d) implies exists|j: int| 0 <= j < a && #[trigger] o[j] == d by {
        if a < mid.len() {
            assert(o[a] == mid[a]);
            assert(edge(ts, mid[a], d));
            let j = choose|j: int| 0 <= j < a && #[trigger] mid[j] == d;
            assert(o[j] == mid[j]);
        } else {
            let t = choose|t: int| 0 <= t < ts.len() && #[trigger] ts[t].id == o[a] && ts[t].deps.contains(d);
            assert(t == idx);
            let k = choose|k: int| 0 <= k < ts[t].deps.len() && ts[t].deps[k] == d;
            assert(mid.contains(ts[idx].deps[k]));
            let j = choose|j: int| 0 <= j < mid.len() && mid[j] == d;
            assert(o[j] == mid[j]);
        }
    }
    assert(o.subrange(0, mid.len() as int) =~= mid);
    assert(o[o.len() - 1] == id);
}

proof fn lemma_dep_is_target(ts: Seq<TargetPlanView>, idx: int, k: int)
    requires
        deps_closed(ts),
        0 <= idx < ts.len(),
        0 <= k < ts[idx].deps.len(),
    ensures
        has_target(ts, ts[idx].deps[k]),
{
    reveal(deps_closed);
}

proof fn lemma_walk_singleton(ts: Seq<TargetPlanView>, x: Seq<char>)
    ensures
        is_walk(ts, seq![x]),
{
    reveal(is_walk);
}

/// The identifiers on a depth-first stack: distinct targets of `ts`.
pub open spec fn stack_ok(ts: Seq<TargetPlanView>, stack: Seq<Seq<char>>) -> bool {
    &&& stack.no_duplicates()
    &&& forall|i: int| 0 <= i < stack.len() ==> has_target(ts, #[trigger] stack[i])
}

/// Pushing a target not yet on a depth-first stack keeps the stack
/// well-formed, and no longer than the list of targets.
pub proof fn lemma_stack_push(ts: Seq<TargetPlanView>, stack: Seq<Seq<char>>, id: Seq<char>)
    requires
        stack_ok(ts, stack),
        !stack.contains(id),
        has_target(ts, id),
    ensures
        stack_ok(ts, stack.push(id)),
        stack.push(id).len() <= ts.len(),
{
    let s = stack.push(id);
    assert forall|a: int, b: int| 0 <= a < s.len() && 0 <= b < s.len() && a != b implies s[a] != s[b] by {
        if a < stack.len() && b < stack.len() {
            assert(s[a] == stack[a] && s[b] == stack[b]);
        } else if a < stack.len() {
            assert(s[a] == stack[a]);
        } else {
            assert(s[b] == stack[b]);
        }
    }
    assert forall|i: int| 0 <= i < s.len() implies has_target(ts, #[trigger] s[i]) by {
        if i < stack.len() {
            assert(s[i] == stack[i]);
        }
    }
    lemma_distinct_ids_bounded(s, ts);
}

/// Depth-first, post-order visit of module `id`, with the modules of
/// `stack` under visit and those of `order` finished: a finished module is
/// left as it is; a module under visit is where a cycle is met (`Err`);
/// otherwise its dependencies are visited in order and the module is
/// appended after them. It is defined for targets whose dependencies are
/// all targets, and for a module that has one.
pub open spec fn dfs_visit(
    ts: Seq<TargetPlanView>,
    id: Seq<char>,
    stack: Seq<Seq<char>>,
    order: Seq<Seq<char>>,
) -> Result<Seq<Seq<char>>, Seq<char>>
    decreases ts.len() - stack.len(), 0int
    when stack_ok(ts, stack) && deps_closed(ts) && has_target(ts, id)
{
    if order.contains(id) {
        Ok(order)
    } else if stack.contains(id) {
        Err(id)
    } else {
        proof {
            lemma_stack_push(ts, stack, id);
        }
        match dfs_deps(ts, first_target(ts, id).deps, 0, stack.push(id), order) {
            Ok(o) => Ok(o.push(id)),
            Err(x) => Err(x),
        }
    }
}

/// Depth-first visits of `deps[i..]`, one after the other.
pub open spec fn dfs_deps(
    ts: Seq<TargetPlanView>,
    deps: Seq<Seq<char>>,
    i: int,
    stack: Seq<Seq<char>>,
    order: Seq<Seq<char>>,
) -> Result<Seq<Seq<char>>, Seq<char>>
    decreases ts.len() - stack.len(), deps.len() - i + 1
    when stack_ok(ts, stack) && 0 <= i && deps_closed(ts)
{
    if i >= deps.len() {
        Ok(order)
    } else {
        match dfs_visit(ts, deps[i], stack, order) {
            Ok(o) => dfs_deps(ts, deps, i + 1, stack, o),
            Err(x) => Err(x),
        }
    }
}

/// DFS-based topological sorting with cycle protection.
fn topo_visit(
    id: &String,
    targets: &Vec<TargetPlan>,
    stack: &mut Vec<String>,
    order: &mut Vec<String>,
) -> (r: Result<(), BuildError>)
    requires
        unique_ids(targets.deep_view()),
        deps_closed(targets.deep_view()),
        has_target(targets.deep_view(), id@),
        order_inv(targets.deep_view(), old(order).deep_view()),
        old(stack).deep_view().no_duplicates(),
        forall|i: int| 0 <= i < old(stack).deep_view().len() ==> has_target(targets.deep_view(), #[trigger] old(stack).deep_view()[i]),
        forall|x: Seq<char>| old(stack).deep_view().contains(x) ==> !old(order).deep_view().contains(x),
    ensures
        match r {
            Ok(()) => {
                &&& final(stack).deep_view() == old(stack).deep_view()
                &&& order_inv(targets.deep_view(), final(order).deep_view())
                &&& forall|k: int| old(order).deep_view().len() <= k < final(order).deep_view().len()
                    ==> reachable(targets.deep_view(), id@, #[trigger] final(order).deep_view()[k])
                &&& is_prefix(old(order).deep_view(), final(order).deep_view())
                &&& final(order).deep_view().contains(id@)
                &&& !old(order).deep_view().contains(id@) ==> final(order).deep_view().len() > 0 && final(order).deep_view().last() == id@
                &&& forall|x: Seq<char>| old(stack).deep_view().contains(x) ==> !final(order).deep_view().contains(x)
                &&& dfs_visit(targets.deep_view(), id@, old(stack).deep_view(), old(order).deep_view())
                    == Ok::<Seq<Seq<char>>, Seq<char>>(final(order).deep_view())
            },
            Err(e) => e matches BuildError::Cycle(x)
                && cycle_witness(targets.deep_view(), id@, old(stack).deep_view(), x@)
                && dfs_visit(targets.deep_view(), id@, old(stack).deep_view(), old(order).deep_view())
                    == Err::<Seq<Seq<char>>, Seq<char>>(x@),
        },
    decreases targets@.len() - old(stack)@.len(),
{
    let ghost ts = targets.deep_view();
    let ghost stack0 = stack.deep_view();
    let ghost order0 = order.deep_view();
    let ghost path = stack0.push(id@);
    if contains_id(order, id.as_str()) {
        assert(order.deep_view().subrange(0, order0.len() as int) =~= order0);
        assert(stack.deep_view() == stack0);
        return Ok(());
    }
    if contains_id(stack, id.as_str()) {
        proof {
            lemma_cycle_on_stack(ts, id@, stack0);
        }
        return Err(BuildError::Cycle(id.clone()));
    }
    let idx = match find_target(targets, id.as_str()) {
        Some(i) => i,
        None => {
            // The module has a target, as required.
            return vstd::pervasive::unreached();
        },
    };
    proof {
        assert forall|j: int| 0 <= j < path.len() implies has_target(ts, #[trigger] path[j]) by {
            if j < stack0.len() {
                assert(path[j] == stack0[j]);
            }
        }
        assert(path.no_duplicates()) by {
            assert forall|a: int, b: int| 0 <= a < path.len() && 0 <= b < path.len() && a != b implies path[a] != path[b] by {
                if a < stack0.len() && b < stack0.len() {
                    assert(path[a] == stack0[a] && path[b] == stack0[b]);
                } else if a < stack0.len() {
                    assert(path[a] == stack0[a]);
                } else {
                    assert(path[b] == stack0[b]);
                }
            }
        }
        lemma_distinct_ids_bounded(path, ts);
        assert forall|x: Seq<char>| path.contains(x) implies !order0.contains(x) by {
            let j = choose|j: int| 0 <= j < path.len() && path[j] == x;
            if j < stack0.len() {
                assert(stack0[j] == x);
            }
        }
    }
    stack.push(id.clone());
    assert(stack.deep_view() =~= path);
    assert(order0.subrange(0, order0.len() as int) =~= order0);
    let deps = &targets[idx].deps;
    let mut i: usize = 0;
    while i < deps.len()
        invariant
            ts == targets.deep_view(),
            unique_ids(ts),
            deps_closed(ts),
            idx < ts.len(),
            ts[idx as int].id == id@,
            deps.deep_view() == ts[idx as int].deps,
            i <= deps@.len(),
            stack.deep_view() == path,
            stack@.len() == path.len(),
            targets@.len() == ts.len(),
            path == stack0.push(id@),
            stack0.len() == old(stack)@.len(),
            path.no_duplicates(),
            forall|j: int| 0 <= j < path.len() ==> has_target(ts, #[trigger] path[j]),
            path.len() <= ts.len(),
            order_inv(ts, order.deep_view()),
            forall|k: int| order0.len() <= k < order.deep_view().len() ==> reachable(ts, id@, #[trigger] order.deep_view()[k]),
            is_prefix(order0, order.deep_view()),
            forall|x: Seq<char>| path.contains(x) ==> !order.deep_view().contains(x),
            forall|k: int| 0 <= k < i ==> order.deep_view().contains(#[trigger] deps.deep_view()[k]),
            dfs_deps(ts, deps.deep_view(), 0, path, order0) == dfs_deps(ts, deps.deep_view(), i as int, path, order.deep_view()),
            !order0.contains(id@),
            !stack0.contains(id@),
            stack0 == old(stack).deep_view(),
            order0 == old(order).deep_view(),
            stack_ok(ts, stack0),
            has_target(ts, id@),
            ts[idx as int] == first_target(ts, id@),
        decreases deps@.len() - i,
    {
        let ghost before = order.deep_view();
        proof {
            let dep = deps.deep_view()[i as int];
            assert(deps.deep_view()[i as int] == deps@[i as int]@);
            assert(ts[idx as int].deps.contains(dep));
            assert(edge(ts, path.last(), dep));
            lemma_dep_is_target(ts, idx as int, i as int);
            assert(stack0.len() == old(stack)@.len());
            assert(stack@.len() == old(stack)@.len() + 1);
            assert(stack@.len() <= targets@.len());
        }
        let res = topo_visit(&deps[i], targets, stack, order);
        match res {
            Ok(()) => {},
            Err(e) => {
                proof {
                    assert(deps@[i as int]@ == deps.deep_view()[i as int]);
                    assert(dfs_deps(ts, deps.deep_view(), i as int, path, before) == dfs_visit(ts, deps.deep_view()[i as int], path, before));
                    assert(dfs_visit(ts, id@, stack0, order0) == dfs_deps(ts, deps.deep_view(), 0, path, order0));
                    if let BuildError::Cycle(x) = &e {
                        assert(path.last() == id@);
                        lemma_cycle_prepend(ts, id@, deps.deep_view()[i as int], stack0, x@);
                    }
                }
                return Err(e);
            },
        }
        proof {
            lemma_prefix_trans(order0, before, order.deep_view());
            let now = order.deep_view();
            let dep = deps.deep_view()[i as int];
            assert(edge(ts, id@, dep)) by {
                assert(ts[idx as int].deps.contains(dep));
            }
            assert forall|k: int| order0.len() <= k < now.len() implies reachable(ts, id@, #[trigger] now[k]) by {
                if k < before.len() {
                    assert(now.subrange(0, before.len() as int)[k] == now[k]);
                    assert(before[k] == now[k]);
                } else {
                    assert(reachable(ts, dep, now[k]));
                    let w = choose|w: Seq<Seq<char>>| #[trigger] is_walk(ts, w) && w[0] == dep && w.last() == now[k];
                    lemma_walk_prepend(ts, id@, w);
                    assert(is_walk(ts, seq![id@] + w));
                }
            }
            assert forall|k: int| 0 <= k < i + 1 implies order.deep_view().contains(#[trigger] deps.deep_view()[k]) by {
                if k < i {
                    lemma_prefix_contains(before, order.deep_view(), deps.deep_view()[k]);
                }
            }
        }
        i = i + 1;
    }
    let ghost prev = stack@;
    stack.pop();
    assert(stack.deep_view() =~= stack0) by {
        assert forall|j: int| 0 <= j < stack0.len() implies stack.deep_view()[j] == stack0[j] by {
            assert(stack@[j] == prev[j]);
            assert(prev[j]@ == path[j]);
        }
    }
    let ghost mid = order.deep_view();
    order.push(id.clone());
    proof {
        assert(order.deep_view() =~= mid.push(id@));
        assert(path.contains(id@)) by {
            assert(path[path.len() - 1] == id@);
        }
        assert(reachable(ts, id@, id@)) by {
            lemma_walk_singleton(ts, id@);
            assert(seq![id@][0] == id@ && seq![id@].last() == id@);
        }
        assert forall|k: int| order0.len() <= k < order.deep_view().len() implies reachable(ts, id@, #[trigger] order.deep_view()[k]) by {
            if k < mid.len() {
                assert(order.deep_view()[k] == mid[k]);
            }
        }
        lemma_order_push(ts, mid, id@, idx as int);
        lemma_prefix_trans(order0, mid, mid.push(id@));
        assert forall|x: Seq<char>| stack0.contains(x) implies !order.deep_view().contains(x) by {
            let j = choose|j: int| 0 <= j < stack0.len() && stack0[j] == x;
            assert(path[j] == x);
            assert(path.contains(x));
            if order.deep_view().contains(x) {
                let m = choose|m: int| 0 <= m < order.deep_view().len() && order.deep_view()[m] == x;
                if m < mid.len() {
                    assert(mid[m] == x);
                } else {
                    assert(x == id@);
                }
            }
        }
    }
    Ok(())
}


// ---------------------------------------------------------------------------
// Artifact directories of submodules.
// ---------------------------------------------------------------------------

/// What `pathdiff::diff_paths` gives for a path and a base directory.
pub uninterp spec fn spec_diff_paths(path: Seq<char>, base: Seq<char>) -> Option<Seq<char>>;

/// Calls `pathdiff::diff_paths`, the relative path from `base` to `path`.
/// Its result is named by `spec_diff_paths`, and nothing more is claimed of
/// it: what it gives depends on how the platform reads paths.
#[verifier::external_body]
fn diff_paths(path: &str, base: &str) -> (r: Option<String>)
    ensures
        match r {
            Some(p) => spec_diff_paths(path@, base@) == Some(p@),
            None => spec_diff_paths(path@, base@) is None,
        },
{
    pathdiff::diff_paths(path, base).map(|p| p.to_string_lossy().to_string())
}

/// The folder under `modules/` that receives the artifacts of the module at
/// `module_dir`: its path relative to `root_dir` when that is non-empty and
/// stays below `root_dir`, else the module folder's own name.
pub open spec fn relative_segment(root_dir: Seq<char>, module_dir: Seq<char>) -> Option<Seq<char>> {
    match spec_diff_paths(module_dir, root_dir) {
        Some(rel) => if rel.len() > 0 && !has_parent_component(rel) {
            Some(rel)
        } else {
            spec_file_name(module_dir)
        },
        None => spec_file_name(module_dir),
    }
}

/// The artifact folder of a module, from the relative path `diff` that
/// `diff_paths` found from the root to the module and from the module
/// folder's own name: the relative path when it is non-empty and stays below
/// the root, else the folder name.
pub fn relative_segment_from(
    diff: Option<String>,
    folder_name: Option<String>,
    module_project_dir: &str,
) -> (r: Result<String, BuildError>)
    ensures
        match r {
            Ok(seg) => match diff {
                Some(rel) => if rel@.len() > 0 && !has_parent_component(rel@) {
                    seg@ == rel@
                } else {
                    folder_name is Some && seg@ == folder_name->0@
                },
                None => folder_name is Some && seg@ == folder_name->0@,
            },
            Err(e) => folder_name is None
                && (diff matches Some(rel) ==> rel@.len() == 0 || has_parent_component(rel@))
                && (e matches BuildError::ModuleFolderName(d) && d@ == module_project_dir@),
        },
{
    match diff {
        Some(rel) => {
            if rel.unicode_len() != 0 && !contains_parent_component(rel.as_str()) {
                return Ok(rel);
            }
        },
        None => {},
    }
    match folder_name {
        Some(name) => Ok(name),
        None => Err(BuildError::ModuleFolderName(module_project_dir.to_string())),
    }
}

/// The artifact folder of the module at `module_dir`, when there is one, is
/// non-empty and has no `..` component, and it is either the relative path
/// that `diff_paths` gave or the module folder's single name.
pub open spec fn segment_stays_below(root_dir: Seq<char>, module_dir: Seq<char>) -> bool {
    match relative_segment(root_dir, module_dir) {
        Some(seg) => {
            &&& seg.len() > 0
            &&& !has_parent_component(seg)
            &&& spec_diff_paths(module_dir, root_dir) == Some(seg) || is_single_name(seg)
        },
        None => true,
    }
}

/// Computes the artifact folder of a module below the root's `modules/`.
pub fn module_relative_segment(root_project_dir: &str, module_project_dir: &str) -> (r: Result<String, BuildError>)
    ensures
        segment_stays_below(root_project_dir@, module_project_dir@),
        match r {
            Ok(seg) => relative_segment(root_project_dir@, module_project_dir@) == Some(seg@),
            Err(e) => relative_segment(root_project_dir@, module_project_dir@) is None
                && (e matches BuildError::ModuleFolderName(d) && d@ == module_project_dir@),
        },
{
    let diff = diff_paths(module_project_dir, root_project_dir);
    let folder_name = path_file_name(module_project_dir);
    proof {
        if folder_name is Some {
            reveal(is_single_name);
        }
    }
    relative_segment_from(diff, folder_name, module_project_dir)
}

/// The configuration of the target with identifier `id`.
pub open spec fn config_of(ts: Seq<TargetPlanView>, id: Seq<char>) -> CxonConfigView {
    ts[choose|i: int| 0 <= i < ts.len() && #[trigger] ts[i].id == id].config
}

/// `t` with its artifact directories moved below the root's `modules/seg`.
pub open spec fn relocated(t: TargetPlanView, root_cfg: CxonConfigView, seg: Seq<char>) -> TargetPlanView {
    TargetPlanView {
        config: CxonConfigView {
            build_dir: spec_join(spec_join(root_cfg.build_dir, "modules"@), seg),
            output_dir: spec_join(spec_join(root_cfg.output_dir, "modules"@), seg),
            ..t.config
        },
        ..t
    }
}

/// No artifact folder can be derived for the `i`-th target, a submodule.
pub open spec fn relocation_fails(ts: Seq<TargetPlanView>, root_id: Seq<char>, i: int) -> bool {
    ts[i].id != root_id && relative_segment(config_of(ts, root_id).project_dir, ts[i].config.project_dir) is None
}

/// Every submodule's artifacts moved below the root module's folders; the
/// root target stays as it is.
pub open spec fn relocate_all(ts: Seq<TargetPlanView>, root_id: Seq<char>) -> Seq<TargetPlanView> {
    Seq::new(
        ts.len(),
        |i: int|
            if ts[i].id == root_id {
                ts[i]
            } else {
                relocated(
                    ts[i],
                    config_of(ts, root_id),
                    relative_segment(config_of(ts, root_id).project_dir, ts[i].config.project_dir)->0,
                )
            },
    )
}

/// For multi-module builds, keeps submodule artifacts under the root's
/// folders. The directories themselves are created by the caller.
fn relocate_module_artifact_dirs(root_id: &String, targets: &Vec<TargetPlan>) -> (r: Result<Vec<TargetPlan>, BuildError>)
    requires
        unique_ids(targets.deep_view()),
        has_target(targets.deep_view(), root_id@),
    ensures
        match r {
            Ok(out) => out.deep_view() == relocate_all(targets.deep_view(), root_id@)
                && (forall|i: int| 0 <= i < targets.deep_view().len() ==> !#[trigger] relocation_fails(targets.deep_view(), root_id@, i))
                && forall|i: int| 0 <= i < targets.deep_view().len() && targets.deep_view()[i].id != root_id@
                    ==> segment_stays_below(config_of(targets.deep_view(), root_id@).project_dir, #[trigger] targets.deep_view()[i].config.project_dir),
            Err(e) => exists|i: int| 0 <= i < targets.deep_view().len() && #[trigger] relocation_fails(targets.deep_view(), root_id@, i)
                && (forall|j: int| 0 <= j < i ==> !#[trigger] relocation_fails(targets.deep_view(), root_id@, j))
                && (e matches BuildError::ModuleFolderName(d) && d@ == targets.deep_view()[i].config.project_dir),
        },
{
    let ghost ts = targets.deep_view();
    let ridx = match find_target(targets, root_id.as_str()) {
        Some(i) => i,
        None => {
            return Err(BuildError::RootTargetMissing);
        },
    };
    proof {
        let c = choose|i: int| 0 <= i < ts.len() && #[trigger] ts[i].id == root_id@;
        assert(ts[ridx as int].id == root_id@);
        assert(c == ridx);
    }
    let root_project_dir = &targets[ridx].config.project_dir;
    let root_build_dir = join_path(targets[ridx].config.build_dir.as_str(), "modules");
    let root_output_dir = join_path(targets[ridx].config.output_dir.as_str(), "modules");
    proof {
        reveal_strlit("modules");
    }
    let ghost rc = config_of(ts, root_id@);
    assert(rc == targets@[ridx as int]@.config);
    let mut out: Vec<TargetPlan> = Vec::new();
    let mut i: usize = 0;
    while i < targets.len()
        invariant
            ts == targets.deep_view(),
            rc == config_of(ts, root_id@),
            root_project_dir@ == rc.project_dir,
            root_build_dir@ == spec_join(rc.build_dir, "modules"@),
            root_output_dir@ == spec_join(rc.output_dir, "modules"@),
            i <= targets@.len(),
            out@.len() == i,
            forall|k: int| 0 <= k < i ==> #[trigger] out@[k]@ == relocate_all(ts, root_id@)[k],
            forall|k: int| 0 <= k < i ==> !#[trigger] relocation_fails(ts, root_id@, k),
            forall|k: int| 0 <= k < i && ts[k].id != root_id@
                ==> segment_stays_below(rc.project_dir, #[trigger] ts[k].config.project_dir),
        decreases targets.len() - i,
    {
        let t = &targets[i];
        assert(ts[i as int] == t@);
        if crate::paths::str_eq(t.id.as_str(), root_id.as_str()) {
            out.push(t.clone());
        } else {
            let seg = match module_relative_segment(root_project_dir.as_str(), t.config.project_dir.as_str()) {
                Ok(seg) => seg,
                Err(e) => {
                    assert(relocation_fails(ts, root_id@, i as int));
                    return Err(e);
                },
            };
            let mut config = t.config.clone();
            config.build_dir = join_path(root_build_dir.as_str(), seg.as_str());
            config.output_dir = join_path(root_output_dir.as_str(), seg.as_str());
            let moved = TargetPlan { id: t.id.clone(), config, deps: clone_strings(&t.deps) };
            assert(moved@ == relocate_all(ts, root_id@)[i as int]);
            out.push(moved);
        }
        i = i + 1;
    }
    assert(out.deep_view() =~= relocate_all(ts, root_id@));
    Ok(out)
}


// ---------------------------------------------------------------------------
// The plan.
// ---------------------------------------------------------------------------

/// The targets of the plan for `root`: the collected targets, with the
/// artifact folders of submodules moved below the root's when there is
/// more than one target.
pub open spec fn planned_targets(root: ModuleGraph) -> Seq<TargetPlanView> {
    let ts = collect_spec(root, Seq::empty());
    if ts.len() > 1 {
        relocate_all(ts, root.id@)
    } else {
        ts
    }
}

proof fn lemma_relocate_keeps_graph(ts: Seq<TargetPlanView>, root_id: Seq<char>)
    ensures
        relocate_all(ts, root_id).len() == ts.len(),
        forall|i: int| 0 <= i < ts.len() ==> #[trigger] relocate_all(ts, root_id)[i].id == ts[i].id
            && relocate_all(ts, root_id)[i].deps == ts[i].deps,
        unique_ids(ts) ==> unique_ids(relocate_all(ts, root_id)),
        deps_closed(ts) ==> deps_closed(relocate_all(ts, root_id)),
{
    let r = relocate_all(ts, root_id);
    assert forall|i: int| 0 <= i < ts.len() implies #[trigger] r[i].id == ts[i].id && r[i].deps == ts[i].deps by {}
    if unique_ids(ts) {
        assert forall|i: int, j: int| 0 <= i < r.len() && 0 <= j < r.len() && #[trigger] r[i].id == #[trigger] r[j].id implies i == j by {
            assert(ts[i].id == r[i].id && ts[j].id == r[j].id);
        }
    }
    if deps_closed(ts) {
        reveal(deps_closed);
        assert forall|i: int, k: int| 0 <= i < r.len() && 0 <= k < r[i].deps.len() implies has_target(r, #[trigger] r[i].deps[k]) by {
            assert(r[i].deps == ts[i].deps);
            assert(has_target(ts, ts[i].deps[k]));
            let j = choose|j: int| 0 <= j < ts.len() && #[trigger] ts[j].id == ts[i].deps[k];
            assert(r[j].id == ts[j].id);
        }
    }
}

impl BuildPlan {
    /// Builds a flat dependency plan from a recursive module graph.
    ///
    /// The targets are collected depth first from `root`; with more than one
    /// target, submodule artifacts are placed below the root's folders; the
    /// order is the depth-first post-order from the root, which lists every
    /// dependency before its dependents. A module folder that cannot be
    /// named, or a cyclic dependency, is reported instead.
    pub fn from_module_graph(root: &ModuleGraph) -> (r: Result<Self, BuildError>)
        ensures
            match r {
                Ok(plan) => {
                    &&& plan@.root_id == root.id@
                    &&& plan@.targets == planned_targets(*root)
                    &&& unique_ids(plan@.targets)
                    &&& deps_closed(plan@.targets)
                    &&& plan@.order.no_duplicates()
                    &&& is_topological(plan@.targets, plan@.order)
                    &&& forall|i: int| 0 <= i < plan@.order.len() ==> has_target(plan@.targets, #[trigger] plan@.order[i])
                        && reachable(plan@.targets, root.id@, plan@.order[i])
                    &&& plan@.order.len() > 0 && plan@.order.last() == root.id@
                    &&& dfs_visit(plan@.targets, root.id@, Seq::empty(), Seq::empty())
                        == Ok::<Seq<Seq<char>>, Seq<char>>(plan@.order)
                    &&& {
                        let ts = collect_spec(*root, Seq::empty());
                        ts.len() > 1 ==> forall|i: int| 0 <= i < ts.len() && ts[i].id != root.id@
                            ==> segment_stays_below(config_of(ts, root.id@).project_dir, #[trigger] ts[i].config.project_dir)
                    }
                },
                Err(BuildError::ModuleFolderName(d)) => {
                    let ts = collect_spec(*root, Seq::empty());
                    &&& ts.len() > 1
                    &&& exists|i: int| 0 <= i < ts.len() && #[trigger] relocation_fails(ts, root.id@, i)
                        && (forall|j: int| 0 <= j < i ==> !#[trigger] relocation_fails(ts, root.id@, j))
                        && d@ == ts[i].config.project_dir
                },
                Err(BuildError::Cycle(x)) => {
                    &&& exists|w: Seq<Seq<char>>| #[trigger] is_cyclic_walk(planned_targets(*root), root.id@, w) && x@ == w.last()
                    &&& dfs_visit(planned_targets(*root), root.id@, Seq::empty(), Seq::empty())
                        == Err::<Seq<Seq<char>>, Seq<char>>(x@)
                },
                Err(_) => false,
            },
    {
        let mut targets: Vec<TargetPlan> = Vec::new();
        assert(targets.deep_view() =~= Seq::<TargetPlanView>::empty());
        collect_targets(root, &mut targets);
        proof {
            assert(targets.deep_view() =~= collect_spec(*root, Seq::empty()));
            lemma_collect_root(*root);
            assert(has_target(targets.deep_view(), root.id@)) by {
                assert(targets.deep_view()[0].id == root.id@);
            }
        }
        let ghost ts0 = targets.deep_view();
        if targets.len() > 1 {
            targets = match relocate_module_artifact_dirs(&root.id, &targets) {
                Ok(t) => t,
                Err(e) => {
                    return Err(e);
                },
            };
        }
        proof {
            lemma_relocate_keeps_graph(ts0, root.id@);
            assert(targets.deep_view() == planned_targets(*root));
            assert(has_target(targets.deep_view(), root.id@)) by {
                assert(targets.deep_view()[0].id == ts0[0].id);
            }
            reveal(order_inv);
        }
        let mut order: Vec<String> = Vec::new();
        let mut visiting: Vec<String> = Vec::new();
        assert(order.deep_view() =~= Seq::<Seq<char>>::empty());
        assert(visiting.deep_view() =~= Seq::<Seq<char>>::empty());
        match topo_visit(&root.id, &targets, &mut visiting, &mut order) {
            Ok(()) => {},
            Err(e) => {
                proof {
                    if let BuildError::Cycle(x) = &e {
                        let ts = targets.deep_view();
                        reveal(cycle_witness);
                        let w = choose|w: Seq<Seq<char>>| #[trigger] is_walk(ts, w) && w[0] == root.id@ && w.last() == x@
                            && (Seq::<Seq<char>>::empty().contains(x@) || exists|k: int| 0 <= k < w.len() - 1 && #[trigger] w[k] == x@);
                        assert(is_cyclic_walk(ts, root.id@, w));
                    }
                }
                return Err(e);
            },
        }
        let plan = BuildPlan { root_id: root.id.clone(), targets, order };
        proof {
            reveal(order_inv);
        }
        Ok(plan)
    }

    /// The target of the root module.
    pub fn root_target(&self) -> (r: Result<&TargetPlan, BuildError>)
        ensures
            match r {
                Ok(t) => t@ == first_target(self@.targets, self@.root_id) && t@.id == self.root_id@
                    && has_target(self@.targets, self@.root_id),
                Err(e) => !has_target(self@.targets, self.root_id@) && e is RootTargetMissing,
            },
    {
        match find_target(&self.targets, self.root_id.as_str()) {
            Some(i) => Ok(&self.targets[i]),
            None => Err(BuildError::RootTargetMissing),
        }
    }
}


// ---------------------------------------------------------------------------
// Laws of plans.
// ---------------------------------------------------------------------------

proof fn lemma_walk_prepend(ts: Seq<TargetPlanView>, a: Seq<char>, w: Seq<Seq<char>>)
    requires
        is_walk(ts, w),
        edge(ts, a, w[0]),
    ensures
        is_walk(ts, seq![a] + w),
        (seq![a] + w)[0] == a,
        (seq![a] + w).last() == w.last(),
{
    reveal(is_walk);
    let w2 = seq![a] + w;
    assert forall|k: int| 0 <= k < w2.len() - 1 implies edge(ts, #[trigger] w2[k], w2[k + 1]) by {
        if k == 0 {
            assert(w2[1] == w[0]);
        } else {
            assert(w2[k] == w[k - 1]);
            assert(w2[k + 1] == w[k]);
        }
    }
}

proof fn lemma_walk_extend_targets(a: Seq<TargetPlanView>, b: Seq<TargetPlanView>, w: Seq<Seq<char>>)
    requires
        is_walk(a, w),
        a.len() <= b.len(),
        forall|i: int| 0 <= i < a.len() ==> #[trigger] b[i] == a[i],
    ensures
        is_walk(b, w),
{
    reveal(is_walk);
    assert forall|k: int| 0 <= k < w.len() - 1 implies edge(b, #[trigger] w[k], w[k + 1]) by {
        assert(edge(a, w[k], w[k + 1]));
        let i = choose|i: int| 0 <= i < a.len() && #[trigger] a[i].id == w[k] && a[i].deps.contains(w[k + 1]);
        assert(b[i] == a[i]);
    }
}

/// Everything that collection appends is reachable from the node collected.
proof fn lemma_collect_reach(g: ModuleGraph, acc: Seq<TargetPlanView>)
    requires
        unique_ids(acc),
    ensures
        forall|i: int| acc.len() <= i < collect_spec(g, acc).len() ==> reachable(collect_spec(g, acc), g.id@, #[trigger] collect_spec(g, acc)[i].id),
    decreases g, 1int,
{
    let r = collect_spec(g, acc);
    lemma_collect(g, acc);
    if !has_target(acc, g.id@) {
        let acc1 = acc.push(plan_of(g));
        lemma_collect(g, acc);
        assert(unique_ids(acc1)) by {
            assert forall|i: int, j: int| 0 <= i < acc1.len() && 0 <= j < acc1.len() && #[trigger] acc1[i].id == #[trigger] acc1[j].id implies i == j by {
                if i < acc.len() && j < acc.len() {
                    assert(acc1[i] == acc[i] && acc1[j] == acc[j]);
                } else if i < acc.len() {
                    assert(acc1[i] == acc[i]);
                } else if j < acc.len() {
                    assert(acc1[j] == acc[j]);
                }
            }
        }
        lemma_collect_all(g.children@, acc1);
        lemma_collect_all_reach(g.children@, acc1);
        assert(r == collect_all(g.children@, acc1));
        assert(r[acc.len() as int] == acc1[acc.len() as int]);
        assert forall|i: int| acc.len() <= i < r.len() implies reachable(r, g.id@, #[trigger] r[i].id) by {
            if i == acc.len() {
                lemma_walk_singleton(r, g.id@);
                assert(seq![g.id@].last() == r[i].id);
            } else {
                let j = choose|j: int| 0 <= j < g.children@.len() && reachable(r, #[trigger] g.children@[j].id@, r[i].id);
                let w = choose|w: Seq<Seq<char>>| #[trigger] is_walk(r, w) && w[0] == g.children@[j].id@ && w.last() == r[i].id;
                assert(edge(r, g.id@, w[0])) by {
                    let a = acc.len() as int;
                    assert(r[a].id == g.id@);
                    assert(r[a].deps == g.children@.map_values(|c: ModuleGraph| c.id@));
                    assert(r[a].deps[j] == g.children@[j].id@);
                    assert(r[a].deps.contains(w[0]));
                }
                lemma_walk_prepend(r, g.id@, w);
            }
        }
    }
}

proof fn lemma_collect_all_reach(gs: Seq<ModuleGraph>, acc: Seq<TargetPlanView>)
    requires
        unique_ids(acc),
    ensures
        forall|i: int| acc.len() <= i < collect_all(gs, acc).len() ==> exists|j: int| 0 <= j < gs.len()
            && reachable(collect_all(gs, acc), #[trigger] gs[j].id@, #[trigger] collect_all(gs, acc)[i].id),
    decreases gs, 0int,
{
    if gs.len() > 0 {
        let r1 = collect_spec(gs[0], acc);
        lemma_collect(gs[0], acc);
        lemma_collect_reach(gs[0], acc);
        lemma_collect_all(gs.drop_first(), r1);
        lemma_collect_all_reach(gs.drop_first(), r1);
        let r = collect_all(gs, acc);
        assert(r == collect_all(gs.drop_first(), r1));
        assert forall|i: int| acc.len() <= i < r.len() implies exists|j: int| 0 <= j < gs.len()
            && reachable(r, #[trigger] gs[j].id@, #[trigger] r[i].id) by {
            if i < r1.len() {
                assert(r[i] == r1[i]);
                let w = choose|w: Seq<Seq<char>>| #[trigger] is_walk(r1, w) && w[0] == gs[0].id@ && w.last() == r1[i].id;
                lemma_walk_extend_targets(r1, r, w);
                assert(reachable(r, gs[0].id@, r[i].id));
            } else {
                let j = choose|j: int| 0 <= j < gs.drop_first().len() && reachable(r, #[trigger] gs.drop_first()[j].id@, r[i].id);
                assert(gs.drop_first()[j] == gs[j + 1]);
                assert(reachable(r, gs[j + 1].id@, r[i].id));
            }
        }
    }
}

proof fn lemma_relocate_keeps_reach(ts: Seq<TargetPlanView>, root_id: Seq<char>, w: Seq<Seq<char>>)
    requires
        is_walk(ts, w),
    ensures
        is_walk(relocate_all(ts, root_id), w),
{
    reveal(is_walk);
    let r = relocate_all(ts, root_id);
    lemma_relocate_keeps_graph(ts, root_id);
    assert forall|k: int| 0 <= k < w.len() - 1 implies edge(r, #[trigger] w[k], w[k + 1]) by {
        assert(edge(ts, w[k], w[k + 1]));
        let i = choose|i: int| 0 <= i < ts.len() && #[trigger] ts[i].id == w[k] && ts[i].deps.contains(w[k + 1]);
        assert(r[i].id == ts[i].id && r[i].deps == ts[i].deps);
    }
}

/// Every module on a walk that starts in a topological order is in that
/// order.
proof fn lemma_topological_closed(ts: Seq<TargetPlanView>, order: Seq<Seq<char>>, w: Seq<Seq<char>>)
    requires
        is_topological(ts, order),
        is_walk(ts, w),
        order.contains(w[0]),
    ensures
        forall|k: int| 0 <= k < w.len() ==> order.contains(#[trigger] w[k]),
    decreases w.len(),
{
    reveal(is_walk);
    if w.len() > 1 {
        let v = w.drop_last();
        assert(is_walk(ts, v)) by {
            assert forall|k: int| 0 <= k < v.len() - 1 implies edge(ts, #[trigger] v[k], v[k + 1]) by {
                assert(v[k] == w[k] && v[k + 1] == w[k + 1]);
            }
        }
        lemma_topological_closed(ts, order, v);
        let n = w.len() - 1;
        assert(order.contains(v[n - 1]));
        assert(edge(ts, w[n - 1], w[n]));
        let i = choose|i: int| 0 <= i < order.len() && order[i] == w[n - 1];
        assert(edge(ts, order[i], w[n]));
        let j = choose|j: int| 0 <= j < i && #[trigger] order[j] == w[n];
        assert forall|k: int| 0 <= k < w.len() implies order.contains(#[trigger] w[k]) by {
            if k < n {
                assert(w[k] == v[k]);
            } else {
                assert(order[j] == w[k]);
            }
        }
    }
}

/// Every target of the plan made from `root` occurs in any topological
/// order of that plan that holds the root module.
pub proof fn lemma_order_lists_every_target(root: ModuleGraph, order: Seq<Seq<char>>)
    requires
        is_topological(planned_targets(root), order),
        order.contains(root.id@),
    ensures
        forall|i: int| 0 <= i < planned_targets(root).len() ==> order.contains(#[trigger] planned_targets(root)[i].id),
{
    let e = Seq::<TargetPlanView>::empty();
    let ts0 = collect_spec(root, e);
    let ts = planned_targets(root);
    lemma_collect_root(root);
    lemma_collect_reach(root, e);
    lemma_relocate_keeps_graph(ts0, root.id@);
    assert forall|i: int| 0 <= i < ts.len() implies order.contains(#[trigger] ts[i].id) by {
        assert(ts[i].id == ts0[i].id);
        assert(reachable(ts0, root.id@, ts0[i].id));
        let w = choose|w: Seq<Seq<char>>| #[trigger] is_walk(ts0, w) && w[0] == root.id@ && w.last() == ts0[i].id;
        if ts0.len() > 1 {
            lemma_relocate_keeps_reach(ts0, root.id@, w);
        }
        assert(is_walk(ts, w));
        lemma_topological_closed(ts, order, w);
        assert(w.len() > 0) by {
            reveal(is_walk);
        }
        assert(order.contains(w[w.len() - 1]));
    }
}

/// A topological order holding `root` rules out any cyclic dependency
/// reachable from `root`.
pub proof fn lemma_ordered_plan_is_acyclic(ts: Seq<TargetPlanView>, root: Seq<char>, order: Seq<Seq<char>>)
    requires
        is_topological(ts, order),
        order.no_duplicates(),
        order.contains(root),
    ensures
        forall|w: Seq<Seq<char>>| !#[trigger] is_cyclic_walk(ts, root, w),
{
    assert forall|w: Seq<Seq<char>>| !#[trigger] is_cyclic_walk(ts, root, w) by {
        if is_cyclic_walk(ts, root, w) {
            lemma_topological_closed(ts, order, w);
            lemma_positions_decrease(ts, order, w, w.len() - 1);
            let k = choose|k: int| 0 <= k < w.len() - 1 && #[trigger] w[k] == w.last();
            let pk = choose|p: int| 0 <= p < order.len() && order[p] == w[k];
            let pl = choose|p: int| 0 <= p < order.len() && order[p] == w[w.len() - 1];
            assert(pk == pl);
        }
    }
}

/// Along a walk inside a topological order without repetitions, positions in
/// the order strictly decrease.
proof fn lemma_positions_decrease(ts: Seq<TargetPlanView>, order: Seq<Seq<char>>, w: Seq<Seq<char>>, m: int)
    requires
        is_topological(ts, order),
        order.no_duplicates(),
        is_walk(ts, w),
        forall|k: int| 0 <= k < w.len() ==> order.contains(#[trigger] w[k]),
        0 <= m < w.len(),
    ensures
        forall|k: int, pk: int, pm: int| #![trigger w[k], order[pk], order[pm]] 0 <= k < m && 0 <= pk < order.len() && 0 <= pm < order.len()
            && order[pk] == w[k] && order[pm] == w[m] ==> pm < pk,
    decreases m,
{
    reveal(is_walk);
    if m > 0 {
        lemma_positions_decrease(ts, order, w, m - 1);
        assert(edge(ts, w[m - 1], w[m]));
        assert(order.contains(w[m - 1]));
        let q = choose|q: int| 0 <= q < order.len() && order[q] == w[m - 1];
        assert(edge(ts, order[q], w[m]));
        let j = choose|j: int| 0 <= j < q && #[trigger] order[j] == w[m];
        assert forall|k: int, pk: int, pm: int| #![trigger w[k], order[pk], order[pm]] 0 <= k < m && 0 <= pk < order.len() && 0 <= pm < order.len()
            && order[pk] == w[k] && order[pm] == w[m] implies pm < pk by {
            assert(pm == j);
            if k < m - 1 {
                assert(q < pk);
            } else {
                assert(pk == q);
            }
        }
    }
}


// ---------------------------------------------------------------------------
// Plans of loaded graphs.
// ---------------------------------------------------------------------------

/// The store lists, among the child module locations of module `a`, one
/// already read where module `b` was found.
pub open spec fn store_edge(v: ConfigStoreView, a: Seq<char>, b: Seq<char>) -> bool {
    exists|p: Seq<char>| #[trigger] child_paths(config_for(v, a)).contains(p) && is_resolved(v, p) && id_at(v, p) == b
}

/// Every dependency that a target of `ts` names is a child module of it in
/// the store.
pub open spec fn edges_in_store(v: ConfigStoreView, ts: Seq<TargetPlanView>) -> bool {
    forall|i: int, k: int| 0 <= i < ts.len() && 0 <= k < ts[i].deps.len() ==> store_edge(v, ts[i].id, #[trigger] ts[i].deps[k])
}

proof fn lemma_collect_edges(v: ConfigStoreView, g: ModuleGraph, acc: Seq<TargetPlanView>)
    requires
        unfolds(v, g.id@, g),
        edges_in_store(v, acc),
    ensures
        edges_in_store(v, collect_spec(g, acc)),
    decreases g, 1int,
{
    if !has_target(acc, g.id@) {
        let acc1 = acc.push(plan_of(g));
        let cps = child_paths(config_for(v, g.id@));
        assert forall|i: int, k: int| 0 <= i < acc1.len() && 0 <= k < acc1[i].deps.len()
            implies store_edge(v, acc1[i].id, #[trigger] acc1[i].deps[k]) by {
            if i < acc.len() {
                assert(acc1[i] == acc[i]);
                assert(store_edge(v, acc[i].id, acc[i].deps[k]));
            } else {
                assert(acc1[i] == plan_of(g));
                assert(acc1[i].id == g.id@);
                assert(acc1[i].deps[k] == g.children@[k].id@);
                assert(is_resolved(v, cps[k]));
                assert(id_at(v, cps[k]) == g.children@[k].id@);
                assert(cps.contains(cps[k]));
                assert(child_paths(config_for(v, acc1[i].id)).contains(cps[k]) && is_resolved(v, cps[k])
                    && id_at(v, cps[k]) == acc1[i].deps[k]);
            }
        }
        assert forall|j: int| 0 <= j < g.children@.len() implies unfolds(v, (#[trigger] g.children@[j]).id@, g.children@[j]) by {
            assert(is_resolved(v, cps[j]));
        }
        lemma_collect_all_edges(v, g.children@, acc1);
    }
}

proof fn lemma_collect_all_edges(v: ConfigStoreView, gs: Seq<ModuleGraph>, acc: Seq<TargetPlanView>)
    requires
        forall|j: int| 0 <= j < gs.len() ==> unfolds(v, (#[trigger] gs[j]).id@, gs[j]),
        edges_in_store(v, acc),
    ensures
        edges_in_store(v, collect_all(gs, acc)),
    decreases gs, 0int,
{
    if gs.len() > 0 {
        lemma_collect_edges(v, gs[0], acc);
        let rest = gs.drop_first();
        assert forall|j: int| 0 <= j < rest.len() implies unfolds(v, (#[trigger] rest[j]).id@, rest[j]) by {
            assert(rest[j] == gs[j + 1]);
        }
        lemma_collect_all_edges(v, rest, collect_spec(gs[0], acc));
    }
}

/// A walk among targets whose dependencies are all child modules in the
/// store follows child module locations from `root_path`.
proof fn lemma_walk_in_store(v: ConfigStoreView, ts: Seq<TargetPlanView>, root_path: Seq<char>, w: Seq<Seq<char>>)
    requires
        edges_in_store(v, ts),
        is_walk(ts, w),
        is_resolved(v, root_path),
        id_at(v, root_path) == w[0],
    ensures
        exists|ws: Seq<Seq<char>>| #[trigger] is_path_walk(v, root_path, ws) && ws.len() == w.len()
            && is_resolved(v, ws.last())
            && forall|k: int| 0 <= k < w.len() ==> id_at(v, #[trigger] ws[k]) == w[k],
    decreases w.len(),
{
    reveal(is_walk);
    if w.len() == 1 {
        let ws = seq![root_path];
        assert(is_path_walk(v, root_path, ws)) by {
            reveal(is_path_walk);
        }
        assert(forall|k: int| 0 <= k < w.len() ==> id_at(v, #[trigger] ws[k]) == w[k]);
    } else {
        let w0 = w.drop_last();
        assert(is_walk(ts, w0)) by {
            assert forall|k: int| 0 <= k < w0.len() - 1 implies edge(ts, #[trigger] w0[k], w0[k + 1]) by {
                assert(w0[k] == w[k] && w0[k + 1] == w[k + 1]);
                assert(edge(ts, w[k], w[k + 1]));
            }
        }
        lemma_walk_in_store(v, ts, root_path, w0);
        let ws0 = choose|ws: Seq<Seq<char>>| #[trigger] is_path_walk(v, root_path, ws) && ws.len() == w0.len()
            && is_resolved(v, ws.last())
            && forall|k: int| 0 <= k < w0.len() ==> id_at(v, #[trigger] ws[k]) == w0[k];
        let n = w.len() - 2;
        assert(edge(ts, w[n], w[n + 1]));
        let i = choose|i: int| 0 <= i < ts.len() && #[trigger] ts[i].id == w[n] && ts[i].deps.contains(w[n + 1]);
        let k = choose|k: int| 0 <= k < ts[i].deps.len() && ts[i].deps[k] == w[n + 1];
        assert(store_edge(v, ts[i].id, ts[i].deps[k]));
        let p = choose|p: Seq<char>| #[trigger] child_paths(config_for(v, w[n])).contains(p) && is_resolved(v, p)
            && id_at(v, p) == w[n + 1];
        assert(id_at(v, ws0.last()) == w[n]) by {
            assert(ws0.last() == ws0[n]);
        }
        lemma_walk_push_child(v, root_path, ws0, p);
        let ws = ws0.push(p);
        assert(forall|m: int| 0 <= m < w.len() ==> id_at(v, #[trigger] ws[m]) == w[m]) by {
            assert forall|m: int| 0 <= m < w.len() implies id_at(v, #[trigger] ws[m]) == w[m] by {
                if m < w0.len() {
                    assert(ws[m] == ws0[m]);
                    assert(w[m] == w0[m]);
                }
            }
        }
    }
}

/// A module graph that loading built from a store never plans a cyclic
/// dependency: no walk of its targets from the root comes back to a module
/// it has passed, so `from_module_graph` does not report a cycle for it.
pub proof fn lemma_loaded_graph_plans_without_cycle(
    v: ConfigStoreView,
    root_path: Seq<char>,
    g: ModuleGraph,
    w: Seq<Seq<char>>,
)
    requires
        is_resolved(v, root_path),
        id_at(v, root_path) == g.id@,
        unfolds(v, g.id@, g),
    ensures
        !is_cyclic_walk(planned_targets(g), g.id@, w),
{
    let ts0 = collect_spec(g, Seq::empty());
    lemma_collect_edges(v, g, Seq::empty());
    let ts = planned_targets(g);
    assert(edges_in_store(v, ts)) by {
        if ts0.len() > 1 {
            lemma_relocate_keeps_graph(ts0, g.id@);
            assert forall|i: int, k: int| 0 <= i < ts.len() && 0 <= k < ts[i].deps.len()
                implies store_edge(v, ts[i].id, #[trigger] ts[i].deps[k]) by {
                assert(ts[i].id == ts0[i].id && ts[i].deps == ts0[i].deps);
                assert(store_edge(v, ts0[i].id, ts0[i].deps[k]));
            }
        }
    }
    if is_cyclic_walk(ts, g.id@, w) {
        lemma_walk_in_store(v, ts, root_path, w);
        let ws = choose|ws: Seq<Seq<char>>| #[trigger] is_path_walk(v, root_path, ws) && ws.len() == w.len()
            && is_resolved(v, ws.last())
            && forall|k: int| 0 <= k < w.len() ==> id_at(v, #[trigger] ws[k]) == w[k];
        lemma_loaded_graph_is_acyclic(v, root_path, g, ws);
        let k = choose|k: int| 0 <= k < w.len() - 1 && #[trigger] w[k] == w.last();
        assert(id_at(v, ws[k]) == w[k]);
        assert(id_at(v, ws[w.len() - 1]) == w[w.len() - 1]);
    }
}


/// Submodule artifacts are kept under the root's folders: a relocated
/// submodule builds into `<root build dir>/modules/<segment>` and outputs to
/// `<root output dir>/modules/<segment>`, where the segment is non-empty,
/// has no `..` component, and is either the relative path from the root
/// that `diff_paths` gave or the module folder's single name.
pub proof fn lemma_submodule_artifacts_below_root(ts: Seq<TargetPlanView>, root_id: Seq<char>, i: int)
    requires
        0 <= i < ts.len(),
        ts[i].id != root_id,
        !relocation_fails(ts, root_id, i),
        segment_stays_below(config_of(ts, root_id).project_dir, ts[i].config.project_dir),
    ensures
        ({
            let rc = config_of(ts, root_id);
            let md = ts[i].config.project_dir;
            let seg = relative_segment(rc.project_dir, md)->0;
            let moved = relocate_all(ts, root_id)[i].config;
            &&& moved.build_dir == spec_join(spec_join(rc.build_dir, "modules"@), seg)
            &&& moved.output_dir == spec_join(spec_join(rc.output_dir, "modules"@), seg)
            &&& seg.len() > 0
            &&& !has_parent_component(seg)
            &&& spec_diff_paths(md, rc.project_dir) == Some(seg) || is_single_name(seg)
        }),
{
}


// ---------------------------------------------------------------------------
// Planned targets carry their modules' configurations.
// ---------------------------------------------------------------------------

/// Relocation moves only the artifact folders: a relocated target keeps its
/// identifier, its dependencies and every setting of its configuration
/// other than the build and output directories (its sources, flags,
/// defines, link inputs and target name among them).
pub proof fn lemma_relocation_keeps_settings(ts: Seq<TargetPlanView>, root_id: Seq<char>, i: int)
    requires
        0 <= i < ts.len(),
    ensures
        ({
            let r = relocate_all(ts, root_id)[i];
            &&& r.id == ts[i].id
            &&& r.deps == ts[i].deps
            &&& r.config == (CxonConfigView {
                build_dir: r.config.build_dir,
                output_dir: r.config.output_dir,
                ..ts[i].config
            })
            &&& r.config.sources == ts[i].config.sources
            &&& r.config.flags == ts[i].config.flags
            &&& r.config.libs == ts[i].config.libs
            &&& r.config.target_name == ts[i].config.target_name
            &&& ts[i].id == root_id ==> r == ts[i]
        }),
{
}

/// `n` is `g` or a module below it.
pub open spec fn node_of(g: ModuleGraph, n: ModuleGraph) -> bool
    decreases g,
{
    ||| g == n
    ||| exists|j: int| 0 <= j < g.children@.len() && node_of(#[trigger] g.children@[j], n)
}

proof fn lemma_collect_nodes(g: ModuleGraph, acc: Seq<TargetPlanView>)
    requires
        unique_ids(acc),
    ensures
        forall|i: int| #![trigger collect_spec(g, acc)[i]] acc.len() <= i < collect_spec(g, acc).len()
            ==> exists|n: ModuleGraph| #[trigger] node_of(g, n) && collect_spec(g, acc)[i] == plan_of(n),
    decreases g, 1int,
{
    lemma_collect(g, acc);
    if !has_target(acc, g.id@) {
        let acc1 = acc.push(plan_of(g));
        lemma_collect(g, acc);
        assert(unique_ids(acc1)) by {
            assert forall|i: int, j: int| 0 <= i < acc1.len() && 0 <= j < acc1.len() && #[trigger] acc1[i].id == #[trigger] acc1[j].id implies i == j by {
                if i < acc.len() && j < acc.len() {
                    assert(acc1[i] == acc[i] && acc1[j] == acc[j]);
                } else if i < acc.len() {
                    assert(acc1[i] == acc[i]);
                    assert(acc[i].id == g.id@);
                } else if j < acc.len() {
                    assert(acc1[j] == acc[j]);
                    assert(acc[j].id == g.id@);
                }
            }
        }
        lemma_collect_all(g.children@, acc1);
        lemma_collect_all_nodes(g.children@, acc1);
        let r = collect_spec(g, acc);
        assert(r == collect_all(g.children@, acc1));
        assert forall|i: int| #![trigger r[i]] acc.len() <= i < r.len() implies exists|n: ModuleGraph|
            #[trigger] node_of(g, n) && r[i] == plan_of(n) by {
            if i == acc.len() {
                assert(r[i] == acc1[i]);
                assert(node_of(g, g));
            } else {
                let (j, n) = choose|j: int, n: ModuleGraph| 0 <= j < g.children@.len()
                    && #[trigger] node_of(g.children@[j], n) && r[i] == plan_of(n);
                assert(node_of(g, n));
            }
        }
    }
}

proof fn lemma_collect_all_nodes(gs: Seq<ModuleGraph>, acc: Seq<TargetPlanView>)
    requires
        unique_ids(acc),
    ensures
        forall|i: int| #![trigger collect_all(gs, acc)[i]] acc.len() <= i < collect_all(gs, acc).len()
            ==> exists|j: int, n: ModuleGraph|
            0 <= j < gs.len() && #[trigger] node_of(gs[j], n) && collect_all(gs, acc)[i] == plan_of(n),
    decreases gs, 0int,
{
    if gs.len() > 0 {
        let r1 = collect_spec(gs[0], acc);
        lemma_collect(gs[0], acc);
        lemma_collect_nodes(gs[0], acc);
        let rest = gs.drop_first();
        lemma_collect_all(rest, r1);
        lemma_collect_all_nodes(rest, r1);
        let r = collect_all(gs, acc);
        assert(r == collect_all(rest, r1));
        assert forall|i: int| #![trigger r[i]] acc.len() <= i < r.len() implies exists|j: int, n: ModuleGraph|
            0 <= j < gs.len() && #[trigger] node_of(gs[j], n) && r[i] == plan_of(n) by {
            if i < r1.len() {
                assert(r[i] == r1[i]);
                let n = choose|n: ModuleGraph| #[trigger] node_of(gs[0], n) && r1[i] == plan_of(n);
                assert(node_of(gs[0], n));
            } else {
                let (j, n) = choose|j: int, n: ModuleGraph| 0 <= j < rest.len()
                    && #[trigger] node_of(rest[j], n) && r[i] == plan_of(n);
                assert(rest[j] == gs[j + 1]);
                assert(node_of(gs[j + 1], n));
            }
        }
    }
}

/// Every planned target carries its module's configuration: for each
/// target of the plan of `root` there is a module of the graph with the
/// same identifier, whose children are the target's dependencies and whose
/// configuration equals the target's in every field but the build and
/// output directories, which relocation may move.
pub proof fn lemma_planned_targets_keep_module_settings(root: ModuleGraph, i: int)
    requires
        0 <= i < planned_targets(root).len(),
    ensures
        exists|n: ModuleGraph| #[trigger] node_of(root, n) && {
            let t = planned_targets(root)[i];
            &&& t.id == n.id@
            &&& t.deps == n.children@.map_values(|c: ModuleGraph| c.id@)
            &&& t.config == (CxonConfigView {
                build_dir: t.config.build_dir,
                output_dir: t.config.output_dir,
                ..n.config@
            })
        },
{
    let e = Seq::<TargetPlanView>::empty();
    let ts0 = collect_spec(root, e);
    lemma_collect_nodes(root, e);
    lemma_relocate_keeps_graph(ts0, root.id@);
    let n = choose|n: ModuleGraph| #[trigger] node_of(root, n) && ts0[i] == plan_of(n);
    if ts0.len() > 1 {
        lemma_relocation_keeps_settings(ts0, root.id@, i);
    }
    assert(node_of(root, n));
}

} // verus!
