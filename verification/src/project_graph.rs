//! The module graph: each module with its configuration and its child
//! modules.
//!
//! Each module is configured by its own `cxon.json` and can declare child
//! modules through `modules`. Reading those files is left to the caller: the
//! configurations read so far are kept in a `ConfigStore`, and
//! `load_module_graph` either builds the whole graph from it or names the
//! next file it needs.

use vstd::prelude::*;

use crate::cxon::{CxonConfig, CxonConfigView, ModuleRef};
use crate::error::{GraphError, GraphErrorView};
use crate::paths::{join_path, spec_join, spec_to_lowercase, str_eq, to_lowercase};

verus! {

/// One module and, recursively, the modules it depends on.
pub struct ModuleGraph {
    /// Stable module identity (the canonical project directory).
    pub id: String,
    pub config: CxonConfig,
    /// Direct dependency modules declared by `modules`.
    pub children: Vec<ModuleGraph>,
}

/// A configuration location that has been read, and the module identity
/// found there.
pub struct ResolvedPath {
    pub path: String,
    pub id: String,
}

/// The configuration read for one module identity.
pub struct ModuleEntry {
    pub id: String,
    pub config: CxonConfig,
}

/// The configurations read so far.
pub struct ConfigStore {
    resolved: Vec<ResolvedPath>,
    entries: Vec<ModuleEntry>,
}

pub struct ConfigStoreView {
    pub resolved: Seq<(Seq<char>, Seq<char>)>,
    pub entries: Seq<(Seq<char>, CxonConfigView)>,
}

impl View for ConfigStore {
    type V = ConfigStoreView;

    closed spec fn view(&self) -> ConfigStoreView {
        ConfigStoreView {
            resolved: self.resolved@.map_values(|r: ResolvedPath| (r.path@, r.id@)),
            entries: self.entries@.map_values(|e: ModuleEntry| (e.id@, e.config@)),
        }
    }
}

/// Each location and each identity is recorded once, and every identity
/// found at a location has a configuration.
#[verifier::opaque]
pub open spec fn store_wf(v: ConfigStoreView) -> bool {
    &&& forall|i: int, j: int| 0 <= i < v.resolved.len() && 0 <= j < v.resolved.len()
        && #[trigger] v.resolved[i].0 == #[trigger] v.resolved[j].0 ==> i == j
    &&& forall|i: int, j: int| 0 <= i < v.entries.len() && 0 <= j < v.entries.len()
        && #[trigger] v.entries[i].0 == #[trigger] v.entries[j].0 ==> i == j
    &&& forall|i: int| 0 <= i < v.resolved.len() ==> has_entry(v, #[trigger] v.resolved[i].1)
}

pub open spec fn has_entry(v: ConfigStoreView, id: Seq<char>) -> bool {
    exists|i: int| 0 <= i < v.entries.len() && #[trigger] v.entries[i].0 == id
}

pub open spec fn is_resolved(v: ConfigStoreView, path: Seq<char>) -> bool {
    exists|i: int| 0 <= i < v.resolved.len() && #[trigger] v.resolved[i].0 == path
}

/// The module identity found at `path`.
pub open spec fn id_at(v: ConfigStoreView, path: Seq<char>) -> Seq<char> {
    v.resolved[choose|i: int| 0 <= i < v.resolved.len() && #[trigger] v.resolved[i].0 == path].1
}

/// The configuration of the module `id`.
pub open spec fn config_for(v: ConfigStoreView, id: Seq<char>) -> CxonConfigView {
    v.entries[choose|i: int| 0 <= i < v.entries.len() && #[trigger] v.entries[i].0 == id].1
}

/// Where the child modules of a configuration are found: each module
/// reference joined onto the module's root directory.
pub open spec fn child_paths(c: CxonConfigView) -> Seq<Seq<char>> {
    match c.modules {
        Some(refs) => refs.map_values(|r: Seq<char>| spec_join(c.project_dir, r)),
        None => Seq::empty(),
    }
}

/// `g` is the module `id` as the store describes it: its configuration
/// without module references, and one child per reference, in order, each
/// with the same toolchain family (compared in lower case).
pub open spec fn unfolds(v: ConfigStoreView, id: Seq<char>, g: ModuleGraph) -> bool
    decreases g,
{
    let c = config_for(v, id);
    let cps = child_paths(c);
    &&& g.id@ == id
    &&& g.config@ == (CxonConfigView { modules: None, ..c })
    &&& g.children@.len() == cps.len()
    &&& forall|j: int| 0 <= j < cps.len() ==> {
        &&& is_resolved(v, #[trigger] cps[j])
        &&& id_at(v, cps[j]) == g.children@[j].id@
        &&& spec_to_lowercase(g.children@[j].config.toolchain@) == spec_to_lowercase(c.toolchain)
        &&& unfolds(v, g.children@[j].id@, g.children@[j])
    }
}

/// A sequence of configuration locations starting at `root`, each the
/// location of a child module of the one before.
#[verifier::opaque]
pub open spec fn is_path_walk(v: ConfigStoreView, root: Seq<char>, ws: Seq<Seq<char>>) -> bool {
    &&& ws.len() > 0
    &&& ws[0] == root
    &&& forall|k: int| 0 <= k < ws.len() - 1 ==> is_resolved(v, #[trigger] ws[k])
        && child_paths(config_for(v, id_at(v, ws[k]))).contains(ws[k + 1])
}

/// The error is justified by what the store holds.
pub open spec fn load_error_justified(v: ConfigStoreView, root: Seq<char>, e: GraphError) -> bool {
    match e {
        GraphError::ConfigNeeded(p) => exists|ws: Seq<Seq<char>>| #[trigger] is_path_walk(v, root, ws)
            && ws.last() == p@ && !is_resolved(v, p@),
        GraphError::CyclicModule(id) => exists|ws: Seq<Seq<char>>| #[trigger] is_path_walk(v, root, ws)
            && is_resolved(v, ws.last()) && id_at(v, ws.last()) == id@
            && exists|k: int| 0 <= k < ws.len() - 1 && #[trigger] id_at(v, ws[k]) == id@,
        GraphError::ToolchainMismatch { parent, child } => exists|ws: Seq<Seq<char>>| #[trigger] is_path_walk(v, root, ws)
            && ws.len() >= 2 && is_resolved(v, ws.last())
            && spec_to_lowercase(config_for(v, id_at(v, ws[ws.len() - 2])).toolchain)
                != spec_to_lowercase(config_for(v, id_at(v, ws.last())).toolchain)
            && parent@ == config_for(v, id_at(v, ws[ws.len() - 2])).project_dir
            && child@ == config_for(v, id_at(v, ws.last())).project_dir,
    }
}


/// The store after recording that `path` holds the configuration `config` of
/// module `id`: a location keeps the identity first found there, and an
/// identity keeps the configuration first read for it.
pub open spec fn recorded(v: ConfigStoreView, path: Seq<char>, id: Seq<char>, config: CxonConfigView) -> ConfigStoreView {
    ConfigStoreView {
        resolved: if is_resolved(v, path) { v.resolved } else { v.resolved.push((path, id)) },
        entries: if has_entry(v, id) { v.entries } else { v.entries.push((id, config)) },
    }
}

impl ConfigStore {
    #[verifier::type_invariant]
    spec fn inv(self) -> bool {
        store_wf(self@)
    }

    /// An empty store.
    pub fn new() -> (r: Self)
        ensures
            r@.resolved.len() == 0,
            r@.entries.len() == 0,
    {
        proof {
            reveal(store_wf);
        }
        let resolved: Vec<ResolvedPath> = Vec::new();
        let entries: Vec<ModuleEntry> = Vec::new();
        assert(resolved@.map_values(|r: ResolvedPath| (r.path@, r.id@)) =~= Seq::empty());
        assert(entries@.map_values(|e: ModuleEntry| (e.id@, e.config@)) =~= Seq::empty());
        let r = ConfigStore { resolved, entries };
        r
    }

    /// Records that the file at `path` configures module `id` with `config`.
    pub fn record(&mut self, path: String, id: String, config: CxonConfig)
        ensures
            final(self)@ == recorded(old(self)@, path@, id@, config@),
    {
        proof {
            use_type_invariant(&*self);
        }
        let ghost v = self@;
        reveal(store_wf);
        let has_path = self.id_of(path.as_str()).is_some();
        let has_id = self.config_of(id.as_str()).is_some();
        let mut taken = ConfigStore::new();
        std::mem::swap(self, &mut taken);
        let ConfigStore { mut resolved, mut entries } = taken;
        assert(resolved@.map_values(|r: ResolvedPath| (r.path@, r.id@)) == v.resolved);
        assert(entries@.map_values(|e: ModuleEntry| (e.id@, e.config@)) == v.entries);
        if !has_id {
            entries.push(ModuleEntry { id: id.clone(), config });
        }
        if !has_path {
            resolved.push(ResolvedPath { path, id });
        }
        let ghost nv = ConfigStoreView {
            resolved: resolved@.map_values(|r: ResolvedPath| (r.path@, r.id@)),
            entries: entries@.map_values(|e: ModuleEntry| (e.id@, e.config@)),
        };
        proof {
            assert(nv.resolved =~= recorded(v, path@, id@, config@).resolved);
            assert(nv.entries =~= recorded(v, path@, id@, config@).entries);
            assert(store_wf(nv)) by {
                assert forall|i: int| 0 <= i < nv.resolved.len() implies has_entry(nv, #[trigger] nv.resolved[i].1) by {
                    if i < v.resolved.len() {
                        assert(nv.resolved[i] == v.resolved[i]);
                        assert(has_entry(v, v.resolved[i].1));
                        let j = choose|j: int| 0 <= j < v.entries.len() && #[trigger] v.entries[j].0 == v.resolved[i].1;
                        assert(nv.entries[j] == v.entries[j]);
                    } else if has_entry(v, id@) {
                        let j = choose|j: int| 0 <= j < v.entries.len() && #[trigger] v.entries[j].0 == id@;
                        assert(nv.entries[j] == v.entries[j]);
                    } else {
                        assert(nv.entries[v.entries.len() as int].0 == id@);
                    }
                }
            }
        }
        *self = ConfigStore { resolved, entries };
    }

    /// The module identity recorded for the configuration at `path`.
    pub fn id_of(&self, path: &str) -> (r: Option<&String>)
        ensures
            r is Some == is_resolved(self@, path@),
            r matches Some(id) ==> id@ == id_at(self@, path@),
    {
        proof {
            use_type_invariant(self);
            reveal(store_wf);
        }
        let mut i: usize = 0;
        while i < self.resolved.len()
            invariant
                i <= self.resolved@.len(),
                store_wf(self@),
                forall|k: int| 0 <= k < i ==> #[trigger] self.resolved@[k].path@ != path@,
            decreases self.resolved.len() - i,
        {
            if str_eq(self.resolved[i].path.as_str(), path) {
                proof {
                    reveal(store_wf);
                    let v = self@;
                    assert(v.resolved[i as int].0 == path@);
                    let c = choose|c: int| 0 <= c < v.resolved.len() && #[trigger] v.resolved[c].0 == path@;
                    assert(c == i);
                }
                return Some(&self.resolved[i].id);
            }
            i = i + 1;
        }
        proof {
            let v = self@;
            assert forall|k: int| 0 <= k < v.resolved.len() implies #[trigger] v.resolved[k].0 != path@ by {
                assert(v.resolved[k].0 == self.resolved@[k].path@);
            }
        }
        None
    }

    /// The configuration recorded for module `id`.
    pub fn config_of(&self, id: &str) -> (r: Option<&CxonConfig>)
        ensures
            r is Some == has_entry(self@, id@),
            r matches Some(c) ==> c@ == config_for(self@, id@),
    {
        proof {
            use_type_invariant(self);
            reveal(store_wf);
        }
        let mut i: usize = 0;
        while i < self.entries.len()
            invariant
                i <= self.entries@.len(),
                store_wf(self@),
                forall|k: int| 0 <= k < i ==> #[trigger] self.entries@[k].id@ != id@,
            decreases self.entries.len() - i,
        {
            if str_eq(self.entries[i].id.as_str(), id) {
                proof {
                    reveal(store_wf);
                    let v = self@;
                    assert(v.entries[i as int].0 == id@);
                    let c = choose|c: int| 0 <= c < v.entries.len() && #[trigger] v.entries[c].0 == id@;
                    assert(c == i);
                }
                return Some(&self.entries[i].config);
            }
            i = i + 1;
        }
        proof {
            let v = self@;
            assert forall|k: int| 0 <= k < v.entries.len() implies #[trigger] v.entries[k].0 != id@ by {
                assert(v.entries[k].0 == self.entries@[k].id@);
            }
        }
        None
    }
}


// ---------------------------------------------------------------------------
// Loading the graph.
// ---------------------------------------------------------------------------

/// `a` and `b` hold the same identities, configurations and children.
pub open spec fn same_graph(a: ModuleGraph, b: ModuleGraph) -> bool
    decreases a,
{
    &&& a.id@ == b.id@
    &&& a.config@ == b.config@
    &&& a.children@.len() == b.children@.len()
    &&& forall|j: int| 0 <= j < a.children@.len() ==> same_graph(#[trigger] a.children@[j], b.children@[j])
}

/// Copies a module graph.
pub fn clone_graph(g: &ModuleGraph) -> (r: ModuleGraph)
    ensures
        same_graph(*g, r),
    decreases g,
{
    let mut children: Vec<ModuleGraph> = Vec::new();
    let mut i: usize = 0;
    while i < g.children.len()
        invariant
            i <= g.children@.len(),
            children@.len() == i,
            forall|j: int| 0 <= j < i ==> same_graph(#[trigger] g.children@[j], children@[j]),
        decreases g.children.len() - i,
    {
        let c = clone_graph(&g.children[i]);
        children.push(c);
        i = i + 1;
    }
    ModuleGraph { id: g.id.clone(), config: g.config.clone(), children }
}

impl Clone for ModuleGraph {
    fn clone(&self) -> (r: Self)
        ensures
            same_graph(*self, r),
    {
        clone_graph(self)
    }
}

proof fn lemma_unfolds_same(v: ConfigStoreView, id: Seq<char>, a: ModuleGraph, b: ModuleGraph)
    requires
        unfolds(v, id, a),
        same_graph(a, b),
    ensures
        unfolds(v, id, b),
    decreases a,
{
    let c = config_for(v, id);
    let cps = child_paths(c);
    assert(b.id@ == id && b.config@ == a.config@ && b.children@.len() == cps.len());
    assert forall|j: int| 0 <= j < b.children@.len() implies child_in_place(v, c, j, #[trigger] b.children@[j]) by {
        assert(is_resolved(v, cps[j]));
        assert(unfolds(v, a.children@[j].id@, a.children@[j]));
        assert(same_graph(a.children@[j], b.children@[j]));
        lemma_unfolds_same(v, a.children@[j].id@, a.children@[j], b.children@[j]);
    }
    lemma_unfolds_intro(v, id, b);
}

proof fn lemma_distinct_bounded<A>(s: Seq<A>, keys: Seq<A>)
    requires
        s.no_duplicates(),
        forall|i: int| 0 <= i < s.len() ==> keys.contains(#[trigger] s[i]),
    ensures
        s.len() <= keys.len(),
{
    assert forall|x: A| s.to_set().contains(x) implies keys.to_set().contains(x) by {
        let i = choose|i: int| 0 <= i < s.len() && s[i] == x;
        assert(keys.contains(s[i]));
    }
    s.unique_seq_to_set();
    keys.lemma_cardinality_of_set();
    vstd::set_lib::lemma_len_subset(s.to_set(), keys.to_set());
}

fn find_loaded(loaded: &Vec<ModuleGraph>, id: &str) -> (r: Option<usize>)
    ensures
        match r {
            Some(i) => i < loaded@.len() && loaded@[i as int].id@ == id@,
            None => !memoized(loaded@, id@),
        },
{
    let mut i: usize = 0;
    while i < loaded.len()
        invariant
            i <= loaded@.len(),
            forall|m: int| 0 <= m < i ==> #[trigger] loaded@[m].id@ != id@,
        decreases loaded.len() - i,
    {
        if str_eq(loaded[i].id.as_str(), id) {
            return Some(i);
        }
        i = i + 1;
    }
    None
}

fn contains_str(v: &Vec<String>, x: &str) -> (r: bool)
    ensures
        r == v.deep_view().contains(x@),
{
    let mut i: usize = 0;
    while i < v.len()
        invariant
            i <= v@.len(),
            forall|k: int| 0 <= k < i ==> #[trigger] v@[k]@ != x@,
        decreases v.len() - i,
    {
        if str_eq(v[i].as_str(), x) {
            assert(v.deep_view()[i as int] == x@);
            return true;
        }
        i = i + 1;
    }
    proof {
        if v.deep_view().contains(x@) {
            let k = choose|k: int| 0 <= k < v.deep_view().len() && v.deep_view()[k] == x@;
            assert(v@[k]@ == x@);
        }
    }
    false
}

pub(crate) proof fn lemma_walk_push_child(v: ConfigStoreView, root: Seq<char>, ws: Seq<Seq<char>>, next: Seq<char>)
    requires
        is_path_walk(v, root, ws),
        is_resolved(v, ws.last()),
        child_paths(config_for(v, id_at(v, ws.last()))).contains(next),
    ensures
        is_path_walk(v, root, ws.push(next)),
{
    reveal(is_path_walk);
    let w2 = ws.push(next);
    assert forall|k: int| 0 <= k < w2.len() - 1 implies is_resolved(v, #[trigger] w2[k])
        && child_paths(config_for(v, id_at(v, w2[k]))).contains(w2[k + 1]) by {
        if k < ws.len() - 1 {
            assert(w2[k] == ws[k] && w2[k + 1] == ws[k + 1]);
        } else {
            assert(w2[k] == ws.last());
        }
    }
}

proof fn lemma_walk_resolved(v: ConfigStoreView, root: Seq<char>, ws: Seq<Seq<char>>, k: int)
    requires
        is_path_walk(v, root, ws),
        0 <= k < ws.len() - 1,
    ensures
        is_resolved(v, ws[k]),
{
    reveal(is_path_walk);
}

proof fn lemma_resolved_has_entry(v: ConfigStoreView, p: Seq<char>)
    requires
        store_wf(v),
        is_resolved(v, p),
    ensures
        has_entry(v, id_at(v, p)),
{
    reveal(store_wf);
    let i = choose|i: int| 0 <= i < v.resolved.len() && #[trigger] v.resolved[i].0 == p;
    assert(has_entry(v, v.resolved[i].1));
}

/// The module identities found along a sequence of locations.
pub open spec fn ids_along(v: ConfigStoreView, ws: Seq<Seq<char>>) -> Seq<Seq<char>> {
    ws.map_values(|p: Seq<char>| id_at(v, p))
}

/// The identities on the current walk plus the next one are distinct and
/// all configured, so there are no more of them than configurations.
proof fn lemma_visiting_bounded(v: ConfigStoreView, root: Seq<char>, trail: Seq<Seq<char>>, path: Seq<char>)
    requires
        store_wf(v),
        is_path_walk(v, root, trail.push(path)),
        is_resolved(v, path),
        ids_along(v, trail).no_duplicates(),
        !ids_along(v, trail).contains(id_at(v, path)),
    ensures
        ids_along(v, trail.push(path)).no_duplicates(),
        ids_along(v, trail.push(path)).len() <= v.entries.len(),
        ids_along(v, trail.push(path)) == ids_along(v, trail).push(id_at(v, path)),
{
    let s0 = ids_along(v, trail);
    let s = ids_along(v, trail.push(path));
    assert(s =~= s0.push(id_at(v, path)));
    let keys = v.entries.map_values(|e: (Seq<char>, CxonConfigView)| e.0);
    assert forall|k: int| 0 <= k < s.len() implies keys.contains(#[trigger] s[k]) by {
        let p = trail.push(path)[k];
        if k < trail.len() {
            lemma_walk_resolved(v, root, trail.push(path), k);
        }
        lemma_resolved_has_entry(v, p);
        let j = choose|j: int| 0 <= j < v.entries.len() && #[trigger] v.entries[j].0 == id_at(v, p);
        assert(keys[j] == s[k]);
    }
    assert(s.no_duplicates()) by {
        assert forall|a: int, b: int| 0 <= a < s.len() && 0 <= b < s.len() && a != b implies s[a] != s[b] by {
            if a < s0.len() && b < s0.len() {
                assert(s[a] == s0[a] && s[b] == s0[b]);
            } else if a < s0.len() {
                assert(s0.contains(s[a]));
            } else {
                assert(s0.contains(s[b]));
            }
        }
    }
    lemma_distinct_bounded(s, keys);
}

proof fn lemma_needed_justified(v: ConfigStoreView, root: Seq<char>, ws: Seq<Seq<char>>, p: Seq<char>)
    requires
        is_path_walk(v, root, ws),
        ws.last() == p,
        !is_resolved(v, p),
    ensures
        exists|w: Seq<Seq<char>>| #[trigger] is_path_walk(v, root, w) && w.last() == p && !is_resolved(v, p),
{
}

proof fn lemma_cycle_justified(v: ConfigStoreView, root: Seq<char>, trail: Seq<Seq<char>>, path: Seq<char>, k: int)
    requires
        is_path_walk(v, root, trail.push(path)),
        is_resolved(v, path),
        0 <= k < trail.len(),
        id_at(v, trail[k]) == id_at(v, path),
    ensures
        exists|ws: Seq<Seq<char>>| #[trigger] is_path_walk(v, root, ws)
            && is_resolved(v, ws.last()) && id_at(v, ws.last()) == id_at(v, path)
            && exists|k: int| 0 <= k < ws.len() - 1 && #[trigger] id_at(v, ws[k]) == id_at(v, path),
{
    let ws = trail.push(path);
    assert(ws[k] == trail[k]);
    assert(id_at(v, ws[k]) == id_at(v, path));
    assert(ws.last() == path);
}

proof fn lemma_mismatch_justified(v: ConfigStoreView, root: Seq<char>, ws: Seq<Seq<char>>, parent: Seq<char>, child: Seq<char>)
    requires
        is_path_walk(v, root, ws.push(child)),
        ws.len() >= 1,
        ws.last() == parent,
        is_resolved(v, child),
        spec_to_lowercase(config_for(v, id_at(v, parent)).toolchain) != spec_to_lowercase(config_for(v, id_at(v, child)).toolchain),
    ensures
        exists|w: Seq<Seq<char>>| #[trigger] is_path_walk(v, root, w)
            && w.len() >= 2 && is_resolved(v, w.last())
            && spec_to_lowercase(config_for(v, id_at(v, w[w.len() - 2])).toolchain)
                != spec_to_lowercase(config_for(v, id_at(v, w.last())).toolchain)
            && config_for(v, id_at(v, parent)).project_dir == config_for(v, id_at(v, w[w.len() - 2])).project_dir
            && config_for(v, id_at(v, child)).project_dir == config_for(v, id_at(v, w.last())).project_dir,
{
    let w = ws.push(child);
    assert(w[w.len() - 2] == parent);
    assert(w.last() == child);
}

/// The `j`-th child of the module configured by `c` is in place.
pub open spec fn child_in_place(v: ConfigStoreView, c: CxonConfigView, j: int, g: ModuleGraph) -> bool {
    &&& is_resolved(v, child_paths(c)[j])
    &&& id_at(v, child_paths(c)[j]) == g.id@
    &&& spec_to_lowercase(g.config.toolchain@) == spec_to_lowercase(c.toolchain)
    &&& unfolds(v, g.id@, g)
}

proof fn lemma_unfolds_intro(v: ConfigStoreView, id: Seq<char>, node: ModuleGraph)
    requires
        node.id@ == id,
        node.config@ == (CxonConfigView { modules: None, ..config_for(v, id) }),
        node.children@.len() == child_paths(config_for(v, id)).len(),
        forall|j: int| 0 <= j < node.children@.len() ==> child_in_place(v, config_for(v, id), j, #[trigger] node.children@[j]),
    ensures
        unfolds(v, id, node),
{
    let c = config_for(v, id);
    let cps = child_paths(c);
    assert forall|j: int| 0 <= j < cps.len() implies {
        &&& is_resolved(v, #[trigger] cps[j])
        &&& id_at(v, cps[j]) == node.children@[j].id@
        &&& spec_to_lowercase(node.children@[j].config.toolchain@) == spec_to_lowercase(c.toolchain)
        &&& unfolds(v, node.children@[j].id@, node.children@[j])
    } by {
        assert(child_in_place(v, c, j, node.children@[j]));
    }
}

/// Some graph of `loaded` is the module `id`.
spec fn memoized(loaded: Seq<ModuleGraph>, id: Seq<char>) -> bool {
    exists|m: int| 0 <= m < loaded.len() && #[trigger] loaded[m].id@ == id
}

/// Every module of a known graph is itself known.
spec fn memo_closed(loaded: Seq<ModuleGraph>) -> bool {
    forall|m: int, d: Seq<char>| 0 <= m < loaded.len() && #[trigger] in_tree(loaded[m], d) ==> memoized(loaded, d)
}

/// No module of a known graph is under visit.
spec fn memo_apart(loaded: Seq<ModuleGraph>, visiting: Seq<Seq<char>>) -> bool {
    forall|m: int, d: Seq<char>| 0 <= m < loaded.len() && #[trigger] in_tree(loaded[m], d) ==> !visiting.contains(d)
}

spec fn grows(a: Seq<ModuleGraph>, b: Seq<ModuleGraph>) -> bool {
    a.len() <= b.len() && forall|m: int| 0 <= m < a.len() ==> #[trigger] b[m] == a[m]
}

proof fn lemma_memoized_grows(a: Seq<ModuleGraph>, b: Seq<ModuleGraph>, d: Seq<char>)
    requires
        grows(a, b),
        memoized(a, d),
    ensures
        memoized(b, d),
{
    let m = choose|m: int| 0 <= m < a.len() && #[trigger] a[m].id@ == d;
    assert(b[m] == a[m]);
}

proof fn lemma_in_tree_same_back(a: ModuleGraph, b: ModuleGraph, id: Seq<char>)
    requires
        same_graph(a, b),
        in_tree(b, id),
    ensures
        in_tree(a, id),
    decreases a,
{
    if b.id@ != id {
        let j = choose|j: int| 0 <= j < b.children@.len() && in_tree(#[trigger] b.children@[j], id);
        lemma_in_tree_same_back(a.children@[j], b.children@[j], id);
    }
}

/// A module that is not known can be put under visit.
proof fn lemma_memo_enter(loaded: Seq<ModuleGraph>, visiting: Seq<Seq<char>>, x: Seq<char>)
    requires
        memo_closed(loaded),
        memo_apart(loaded, visiting),
        !memoized(loaded, x),
    ensures
        memo_apart(loaded, visiting.push(x)),
{
    assert forall|m: int, d: Seq<char>| 0 <= m < loaded.len() && #[trigger] in_tree(loaded[m], d) implies !visiting.push(x).contains(d) by {
        assert(memoized(loaded, d));
        if visiting.push(x).contains(d) {
            let i = choose|i: int| 0 <= i < visiting.push(x).len() && visiting.push(x)[i] == d;
            if i < visiting.len() {
                assert(visiting[i] == d);
            }
        }
    }
}

/// Recording the graph of a module whose visit ends keeps the known graphs
/// closed and apart from the modules still under visit.
proof fn lemma_memo_finish(
    loaded: Seq<ModuleGraph>,
    visiting: Seq<Seq<char>>,
    node: ModuleGraph,
    memo: ModuleGraph,
)
    requires
        memo_closed(loaded),
        memo_apart(loaded, visiting.push(node.id@)),
        !visiting.contains(node.id@),
        same_graph(node, memo),
        forall|c: int, d: Seq<char>| 0 <= c < node.children@.len() && #[trigger] in_tree(node.children@[c], d)
            ==> memoized(loaded, d),
    ensures
        memo_closed(loaded.push(memo)),
        memo_apart(loaded.push(memo), visiting),
        grows(loaded, loaded.push(memo)),
        forall|d: Seq<char>| #[trigger] in_tree(node, d) ==> memoized(loaded.push(memo), d),
{
    let l2 = loaded.push(memo);
    let x = node.id@;
    assert(grows(loaded, l2));
    assert(l2[loaded.len() as int].id@ == x);
    assert forall|d: Seq<char>| #[trigger] in_tree(node, d) implies memoized(l2, d) && !visiting.contains(d) by {
        if d == x {
        } else {
            let c = choose|c: int| 0 <= c < node.children@.len() && in_tree(#[trigger] node.children@[c], d);
            assert(memoized(loaded, d));
            lemma_memoized_grows(loaded, l2, d);
            let m = choose|m: int| 0 <= m < loaded.len() && #[trigger] loaded[m].id@ == d;
            assert(in_tree(loaded[m], d));
            assert(!visiting.push(x).contains(d));
            if visiting.contains(d) {
                let i = choose|i: int| 0 <= i < visiting.len() && visiting[i] == d;
                assert(visiting.push(x)[i] == d);
            }
        }
    }
    assert forall|m: int, d: Seq<char>| 0 <= m < l2.len() && #[trigger] in_tree(l2[m], d)
        implies memoized(l2, d) && !visiting.contains(d) by {
        if m < loaded.len() {
            assert(l2[m] == loaded[m]);
            assert(memoized(loaded, d));
            lemma_memoized_grows(loaded, l2, d);
            assert(!visiting.push(x).contains(d));
            if visiting.contains(d) {
                let i = choose|i: int| 0 <= i < visiting.len() && visiting[i] == d;
                assert(visiting.push(x)[i] == d);
            }
        } else {
            lemma_in_tree_same_back(node, memo, d);
        }
    }
}

/// The identities on the current walk are distinct and configured.
proof fn lemma_trail_visiting_ok(v: ConfigStoreView, root: Seq<char>, trail: Seq<Seq<char>>, path: Seq<char>)
    requires
        store_wf(v),
        is_path_walk(v, root, trail.push(path)),
        ids_along(v, trail).no_duplicates(),
    ensures
        visiting_ok(v, ids_along(v, trail)),
{
    let s = ids_along(v, trail);
    assert forall|i: int| 0 <= i < s.len() implies has_entry(v, #[trigger] s[i]) by {
        lemma_walk_resolved(v, root, trail.push(path), i);
        assert(trail.push(path)[i] == trail[i]);
        lemma_resolved_has_entry(v, trail[i]);
    }
}

#[verifier::rlimit(60)]
fn load_node(
    path: &str,
    store: &ConfigStore,
    loaded: &mut Vec<ModuleGraph>,
    visiting: &mut Vec<String>,
    Ghost(root): Ghost<Seq<char>>,
    Ghost(trail): Ghost<Seq<Seq<char>>>,
) -> (r: Result<ModuleGraph, GraphError>)
    requires
        store_wf(store@),
        is_path_walk(store@, root, trail.push(path@)),
        old(visiting).deep_view() == ids_along(store@, trail),
        ids_along(store@, trail).no_duplicates(),
        forall|m: int| 0 <= m < old(loaded)@.len() ==> unfolds(store@, old(loaded)@[m].id@, #[trigger] old(loaded)@[m]),
        memo_closed(old(loaded)@),
        memo_apart(old(loaded)@, old(visiting).deep_view()),
    ensures
        match r {
            Ok(g) => {
                &&& final(visiting).deep_view() == old(visiting).deep_view()
                &&& forall|m: int| 0 <= m < final(loaded)@.len() ==> unfolds(store@, final(loaded)@[m].id@, #[trigger] final(loaded)@[m])
                &&& is_resolved(store@, path@)
                &&& id_at(store@, path@) == g.id@
                &&& unfolds(store@, g.id@, g)
                &&& memo_closed(final(loaded)@)
                &&& memo_apart(final(loaded)@, old(visiting).deep_view())
                &&& grows(old(loaded)@, final(loaded)@)
                &&& forall|d: Seq<char>| #[trigger] in_tree(g, d) ==> memoized(final(loaded)@, d)
                &&& load_outcome(store@, path@, old(visiting).deep_view()) is None
            },
            Err(e) => load_error_justified(store@, root, e)
                && load_outcome(store@, path@, old(visiting).deep_view()) == Some(e@),
        },
    decreases store@.entries.len() - old(visiting)@.len(),
{
    let ghost v = store@;
    let ghost ws = trail.push(path@);
    let ghost visiting0 = visiting.deep_view();
    let ghost loaded0 = loaded@;
    proof {
        lemma_trail_visiting_ok(v, root, trail, path@);
    }
    let id: &String = match store.id_of(path) {
        Some(i) => i,
        None => {
            proof {
                lemma_needed_justified(v, root, ws, path@);
            }
            return Err(GraphError::ConfigNeeded(path.to_string()));
        },
    };
    match find_loaded(loaded, id.as_str()) {
        Some(k) => {
            let g = clone_graph(&loaded[k]);
            proof {
                let known = loaded@[k as int];
                lemma_unfolds_same(v, known.id@, known, g);
                assert forall|d: Seq<char>| #[trigger] in_tree(g, d) implies memoized(loaded@, d) && !visiting0.contains(d) by {
                    lemma_in_tree_same_back(known, g, d);
                    assert(in_tree(loaded@[k as int], d));
                }
                assert forall|d: Seq<char>| #[trigger] in_tree(known, d) implies !visiting0.contains(d) by {
                    assert(in_tree(loaded@[k as int], d));
                }
                lemma_known_outcome(v, path@, visiting0, known);
            }
            return Ok(g);
        },
        None => {},
    }
    if contains_str(visiting, id.as_str()) {
        proof {
            let k = choose|k: int| 0 <= k < visiting0.len() && visiting0[k] == id@;
            assert(ids_along(v, trail)[k] == id_at(v, trail[k]));
            lemma_cycle_justified(v, root, trail, path@, k);
        }
        return Err(GraphError::CyclicModule(id.clone()));
    }
    proof {
        lemma_resolved_has_entry(v, path@);
    }
    let config: &CxonConfig = match store.config_of(id.as_str()) {
        Some(c) => c,
        None => {
            return Err(GraphError::CyclicModule(id.clone()));
        },
    };
    proof {
        lemma_visiting_bounded(v, root, trail, path@);
        lemma_memo_enter(loaded0, visiting0, id@);
        lemma_visiting_push(v, visiting0, path@);
    }
    visiting.push(id.clone());
    assert(visiting.deep_view() =~= visiting0.push(id@));
    let ghost vis1 = visiting.deep_view();
    let ghost cps = child_paths(config@);
    let mut children: Vec<ModuleGraph> = Vec::new();
    let empty: Vec<ModuleRef> = Vec::new();
    let refs: &Vec<ModuleRef> = match &config.modules {
        Some(refs) => refs,
        None => &empty,
    };
    assert(cps.len() == refs@.len());
    let mut j: usize = 0;
    while j < refs.len()
        invariant
            store_wf(v),
            v == store@,
            config@ == config_for(v, id@),
            is_resolved(v, path@),
            id_at(v, path@) == id@,
            cps == child_paths(config@),
            cps.len() == refs@.len(),
            forall|k: int| 0 <= k < refs@.len() ==> #[trigger] cps[k] == spec_join(config@.project_dir, refs@[k].path@),
            is_path_walk(v, root, ws),
            ws == trail.push(path@),
            j <= refs@.len(),
            visiting.deep_view() == ids_along(v, ws),
            vis1 == ids_along(v, ws),
            vis1 == visiting0.push(id@),
            visiting_ok(v, vis1),
            visiting_ok(v, visiting0),
            !visiting0.contains(id@),
            ids_along(v, ws).no_duplicates(),
            ids_along(v, ws).len() <= v.entries.len(),
            visiting@.len() == old(visiting)@.len() + 1,
            visiting0 == old(visiting).deep_view(),
            loaded0 == old(loaded)@,
            forall|m: int| 0 <= m < loaded@.len() ==> unfolds(v, loaded@[m].id@, #[trigger] loaded@[m]),
            memo_closed(loaded@),
            memo_apart(loaded@, vis1),
            grows(loaded0, loaded@),
            children@.len() == j,
            forall|c: int| 0 <= c < j ==> child_in_place(v, config@, c, #[trigger] children@[c]),
            forall|c: int, d: Seq<char>| 0 <= c < j && #[trigger] in_tree(children@[c], d) ==> memoized(loaded@, d),
            children_outcome(v, id@, 0, vis1) == children_outcome(v, id@, j as int, vis1),
        decreases refs@.len() - j,
    {
        let child_path = join_path(config.project_dir.as_str(), refs[j].path());
        let ghost before = loaded@;
        proof {
            assert(cps[j as int] == child_path@);
            assert(ws.last() == path@);
            lemma_walk_push_child(v, root, ws, child_path@);
        }
        let child = match load_node(child_path.as_str(), store, loaded, visiting, Ghost(root), Ghost(ws)) {
            Ok(c) => c,
            Err(e) => {
                proof {
                    assert(children_outcome(v, id@, j as int, vis1) == Some(e@));
                }
                return Err(e);
            },
        };
        let child_tc = to_lowercase(child.config.toolchain.as_str());
        let parent_tc = to_lowercase(config.toolchain.as_str());
        if !str_eq(child_tc.as_str(), parent_tc.as_str()) {
            proof {
                lemma_mismatch_justified(v, root, ws, path@, child_path@);
                assert(children_outcome(v, id@, j as int, vis1) == Some(GraphErrorView::ToolchainMismatch {
                    parent: config@.project_dir,
                    child: child.config@.project_dir,
                }));
            }
            return Err(GraphError::ToolchainMismatch {
                parent: config.project_dir.clone(),
                child: child.config.project_dir.clone(),
            });
        }
        children.push(child);
        proof {
            assert(children_outcome(v, id@, j as int, vis1) == children_outcome(v, id@, j + 1, vis1));
            assert forall|c: int| 0 <= c < j + 1 implies child_in_place(v, config@, c, #[trigger] children@[c]) by {
                if c == j {
                    assert(children@[c] == child);
                }
            }
            assert forall|c: int, d: Seq<char>| 0 <= c < j + 1 && #[trigger] in_tree(children@[c], d) implies memoized(loaded@, d) by {
                if c < j {
                    assert(memoized(before, d));
                    lemma_memoized_grows(before, loaded@, d);
                } else {
                    assert(children@[c] == child);
                }
            }
            assert(grows(loaded0, loaded@)) by {
                assert forall|m: int| 0 <= m < loaded0.len() implies #[trigger] loaded@[m] == loaded0[m] by {
                    assert(before[m] == loaded0[m]);
                }
            }
        }
        j = j + 1;
    }
    let ghost prev = visiting@;
    assert(prev.len() == ws.len());
    visiting.pop();
    proof {
        assert(visiting.deep_view() =~= visiting0) by {
            assert forall|k: int| 0 <= k < visiting0.len() implies visiting.deep_view()[k] == visiting0[k] by {
                assert(visiting@[k] == prev[k]);
                assert(ids_along(v, ws)[k] == id_at(v, ws[k]));
                assert(ws[k] == trail[k]);
                assert(ids_along(v, trail)[k] == id_at(v, trail[k]));
            }
        }
    }
    let mut node_config = config.clone();
    node_config.modules = None;
    let node = ModuleGraph { id: id.clone(), config: node_config, children };
    proof {
        lemma_unfolds_intro(v, id@, node);
    }
    let memo = clone_graph(&node);
    let ghost before_memo = loaded@;
    proof {
        lemma_unfolds_same(v, id@, node, memo);
        lemma_memo_finish(before_memo, visiting0, node, memo);
        assert(load_outcome(v, path@, visiting0) == children_outcome(v, id@, 0, vis1));
    }
    loaded.push(memo);
    proof {
        assert(loaded@ == before_memo.push(memo));
        assert(grows(loaded0, loaded@)) by {
            assert forall|m: int| 0 <= m < loaded0.len() implies #[trigger] loaded@[m] == loaded0[m] by {
                assert(before_memo[m] == loaded0[m]);
            }
        }
    }
    Ok(node)
}

/// Loads the module graph rooted at the configuration found at `root_path`.
///
/// Succeeds with the graph that the store describes when every module
/// reached has been read; otherwise, following the modules depth first in
/// the order they are declared, reports the first configuration that is
/// still needed, a module that depends on itself, or a child module that
/// selects another toolchain family than its parent.
pub fn load_module_graph(root_path: &str, store: &ConfigStore) -> (r: Result<ModuleGraph, GraphError>)
    ensures
        match r {
            Ok(g) => is_resolved(store@, root_path@) && id_at(store@, root_path@) == g.id@ && unfolds(store@, g.id@, g)
                && load_outcome(store@, root_path@, Seq::empty()) is None,
            Err(e) => load_error_justified(store@, root_path@, e)
                && load_outcome(store@, root_path@, Seq::empty()) == Some(e@),
        },
{
    proof {
        use_type_invariant(store);
    }
    let mut loaded: Vec<ModuleGraph> = Vec::new();
    let mut visiting: Vec<String> = Vec::new();
    proof {
        reveal(is_path_walk);
        assert(Seq::<Seq<char>>::empty().push(root_path@) =~= seq![root_path@]);
        assert(visiting.deep_view() =~= Seq::<Seq<char>>::empty());
        assert(ids_along(store@, Seq::empty()) =~= Seq::<Seq<char>>::empty());
    }
    load_node(root_path, store, &mut loaded, &mut visiting, Ghost(root_path@), Ghost(Seq::empty()))
}


// ---------------------------------------------------------------------------
// Which outcome loading has.
// ---------------------------------------------------------------------------

/// The modules under visit: distinct, each with a configuration.
pub open spec fn visiting_ok(v: ConfigStoreView, visiting: Seq<Seq<char>>) -> bool {
    &&& store_wf(v)
    &&& visiting.no_duplicates()
    &&& forall|i: int| 0 <= i < visiting.len() ==> has_entry(v, #[trigger] visiting[i])
}

/// Pushing a configured module not yet under visit keeps the modules under
/// visit distinct, and no more than the configurations.
pub proof fn lemma_visiting_push(v: ConfigStoreView, visiting: Seq<Seq<char>>, path: Seq<char>)
    requires
        visiting_ok(v, visiting),
        is_resolved(v, path),
        !visiting.contains(id_at(v, path)),
    ensures
        visiting_ok(v, visiting.push(id_at(v, path))),
        visiting.push(id_at(v, path)).len() <= v.entries.len(),
{
    let id = id_at(v, path);
    let s = visiting.push(id);
    lemma_resolved_has_entry(v, path);
    assert forall|a: int, b: int| 0 <= a < s.len() && 0 <= b < s.len() && a != b implies s[a] != s[b] by {
        if a < visiting.len() && b < visiting.len() {
            assert(s[a] == visiting[a] && s[b] == visiting[b]);
        } else if a < visiting.len() {
            assert(s[a] == visiting[a]);
        } else {
            assert(s[b] == visiting[b]);
        }
    }
    assert forall|i: int| 0 <= i < s.len() implies has_entry(v, #[trigger] s[i]) by {
        if i < visiting.len() {
            assert(s[i] == visiting[i]);
        }
    }
    let keys = v.entries.map_values(|e: (Seq<char>, CxonConfigView)| e.0);
    assert forall|k: int| 0 <= k < s.len() implies keys.contains(#[trigger] s[k]) by {
        assert(has_entry(v, s[k]));
        let j = choose|j: int| 0 <= j < v.entries.len() && #[trigger] v.entries[j].0 == s[k];
        assert(keys[j] == s[k]);
    }
    lemma_distinct_bounded(s, keys);
}

/// What loading the module at `path` ends in, with the modules of
/// `visiting` under visit: `None` when it succeeds. A location not read yet
/// is needed; a module under visit is cyclic; otherwise the children are
/// loaded in order, and the first that fails, or that selects another
/// toolchain family, decides.
pub open spec fn load_outcome(v: ConfigStoreView, path: Seq<char>, visiting: Seq<Seq<char>>) -> Option<GraphErrorView>
    decreases v.entries.len() - visiting.len(), 0int
    when visiting_ok(v, visiting)
{
    if !is_resolved(v, path) {
        Some(GraphErrorView::ConfigNeeded(path))
    } else if visiting.contains(id_at(v, path)) {
        Some(GraphErrorView::CyclicModule(id_at(v, path)))
    } else {
        proof {
            lemma_visiting_push(v, visiting, path);
        }
        children_outcome(v, id_at(v, path), 0, visiting.push(id_at(v, path)))
    }
}

/// What loading the children of module `id`, from the `j`-th on, ends in.
pub open spec fn children_outcome(v: ConfigStoreView, id: Seq<char>, j: int, visiting: Seq<Seq<char>>) -> Option<GraphErrorView>
    decreases v.entries.len() - visiting.len(), child_paths(config_for(v, id)).len() - j + 1
    when visiting_ok(v, visiting) && 0 <= j
{
    let c = config_for(v, id);
    let cps = child_paths(c);
    if j >= cps.len() {
        None
    } else {
        match load_outcome(v, cps[j], visiting) {
            Some(e) => Some(e),
            None => {
                let cc = config_for(v, id_at(v, cps[j]));
                if spec_to_lowercase(cc.toolchain) != spec_to_lowercase(c.toolchain) {
                    Some(GraphErrorView::ToolchainMismatch { parent: c.project_dir, child: cc.project_dir })
                } else {
                    children_outcome(v, id, j + 1, visiting)
                }
            },
        }
    }
}

/// Module `id` occurs in the graph `g`.
pub open spec fn in_tree(g: ModuleGraph, id: Seq<char>) -> bool
    decreases g,
{
    ||| g.id@ == id
    ||| exists|j: int| 0 <= j < g.children@.len() && in_tree(#[trigger] g.children@[j], id)
}

proof fn lemma_in_tree_same(a: ModuleGraph, b: ModuleGraph, id: Seq<char>)
    requires
        same_graph(a, b),
        in_tree(a, id),
    ensures
        in_tree(b, id),
    decreases a,
{
    if a.id@ != id {
        let j = choose|j: int| 0 <= j < a.children@.len() && in_tree(#[trigger] a.children@[j], id);
        lemma_in_tree_same(a.children@[j], b.children@[j], id);
    }
}

/// A module occurring in an unfolded graph is unfolded by a graph no
/// higher.
proof fn lemma_tree_unfolds(v: ConfigStoreView, t: ModuleGraph, d: Seq<char>)
    requires
        unfolds(v, t.id@, t),
        in_tree(t, d),
    ensures
        exists|u: ModuleGraph| #[trigger] unfolds(v, d, u) && height(u) <= height(t),
    decreases t,
{
    if t.id@ == d {
        assert(unfolds(v, d, t));
    } else {
        let j = choose|j: int| 0 <= j < t.children@.len() && in_tree(#[trigger] t.children@[j], d);
        let cps = child_paths(config_for(v, t.id@));
        assert(is_resolved(v, cps[j]));
        let c = t.children@[j];
        lemma_tree_unfolds(v, c, d);
        lemma_children_height_bounds(t.children@);
        let u = choose|u: ModuleGraph| #[trigger] unfolds(v, d, u) && height(u) <= height(c);
        assert(height(u) <= height(t));
    }
}

/// A module does not occur below itself in an unfolded graph.
proof fn lemma_not_below_itself(v: ConfigStoreView, g: ModuleGraph, j: int)
    requires
        unfolds(v, g.id@, g),
        0 <= j < g.children@.len(),
    ensures
        !in_tree(g.children@[j], g.id@),
{
    let cps = child_paths(config_for(v, g.id@));
    assert(is_resolved(v, cps[j]));
    let c = g.children@[j];
    if in_tree(c, g.id@) {
        lemma_tree_unfolds(v, c, g.id@);
        let u = choose|u: ModuleGraph| #[trigger] unfolds(v, g.id@, u) && height(u) <= height(c);
        lemma_children_height_bounds(g.children@);
        lemma_height_unique(v, g.id@, g, u);
    }
}

proof fn lemma_children_outcome_none(v: ConfigStoreView, id: Seq<char>, j: int, visiting: Seq<Seq<char>>)
    requires
        visiting_ok(v, visiting),
        0 <= j,
        forall|k: int| j <= k < child_paths(config_for(v, id)).len() ==> {
            &&& load_outcome(v, #[trigger] child_paths(config_for(v, id))[k], visiting) is None
            &&& spec_to_lowercase(config_for(v, id_at(v, child_paths(config_for(v, id))[k])).toolchain)
                == spec_to_lowercase(config_for(v, id).toolchain)
        },
    ensures
        children_outcome(v, id, j, visiting) is None,
    decreases child_paths(config_for(v, id)).len() - j,
{
    let cps = child_paths(config_for(v, id));
    if j < cps.len() {
        assert(load_outcome(v, cps[j], visiting) is None);
        lemma_children_outcome_none(v, id, j + 1, visiting);
    }
}

/// Loading a module whose graph is already known, with none of its modules
/// under visit, succeeds.
proof fn lemma_known_outcome(v: ConfigStoreView, path: Seq<char>, visiting: Seq<Seq<char>>, g: ModuleGraph)
    requires
        visiting_ok(v, visiting),
        is_resolved(v, path),
        id_at(v, path) == g.id@,
        unfolds(v, g.id@, g),
        forall|d: Seq<char>| #[trigger] in_tree(g, d) ==> !visiting.contains(d),
    ensures
        load_outcome(v, path, visiting) is None,
    decreases g,
{
    let x = g.id@;
    assert(in_tree(g, x));
    lemma_visiting_push(v, visiting, path);
    let vis1 = visiting.push(x);
    let c = config_for(v, x);
    let cps = child_paths(c);
    assert forall|k: int| 0 <= k < cps.len() implies {
        &&& load_outcome(v, #[trigger] cps[k], vis1) is None
        &&& spec_to_lowercase(config_for(v, id_at(v, cps[k])).toolchain) == spec_to_lowercase(c.toolchain)
    } by {
        let ch = g.children@[k];
        assert(is_resolved(v, cps[k]));
        lemma_not_below_itself(v, g, k);
        assert forall|d: Seq<char>| #[trigger] in_tree(ch, d) implies !vis1.contains(d) by {
            assert(in_tree(g, d));
            if vis1.contains(d) {
                let i = choose|i: int| 0 <= i < vis1.len() && vis1[i] == d;
                if i < visiting.len() {
                    assert(visiting[i] == d);
                } else {
                    assert(d == x);
                }
            }
        }
        lemma_known_outcome(v, cps[k], vis1, ch);
    }
    lemma_children_outcome_none(v, x, 0, vis1);
}

// ---------------------------------------------------------------------------
// A loaded graph has no cycles.
// ---------------------------------------------------------------------------

/// The number of levels of a module graph.
pub open spec fn height(g: ModuleGraph) -> nat
    decreases g, 1int,
{
    1 + children_height(g.children@)
}

/// The greatest height among sibling graphs, 0 for none.
pub open spec fn children_height(gs: Seq<ModuleGraph>) -> nat
    decreases gs, 0int,
{
    if gs.len() == 0 {
        0
    } else {
        let h = height(gs[0]);
        let r = children_height(gs.drop_first());
        if h > r {
            h
        } else {
            r
        }
    }
}

proof fn lemma_children_height_bounds(gs: Seq<ModuleGraph>)
    ensures
        forall|j: int| 0 <= j < gs.len() ==> height(#[trigger] gs[j]) <= children_height(gs),
    decreases gs.len(),
{
    if gs.len() > 0 {
        lemma_children_height_bounds(gs.drop_first());
        assert forall|j: int| 0 <= j < gs.len() implies height(#[trigger] gs[j]) <= children_height(gs) by {
            if j > 0 {
                assert(gs[j] == gs.drop_first()[j - 1]);
            }
        }
    }
}

proof fn lemma_children_height_pointwise(a: Seq<ModuleGraph>, b: Seq<ModuleGraph>)
    requires
        a.len() == b.len(),
        forall|j: int| 0 <= j < a.len() ==> height(#[trigger] a[j]) == height(b[j]),
    ensures
        children_height(a) == children_height(b),
    decreases a.len(),
{
    if a.len() > 0 {
        assert forall|j: int| 0 <= j < a.drop_first().len() implies height(#[trigger] a.drop_first()[j]) == height(b.drop_first()[j]) by {
            assert(a.drop_first()[j] == a[j + 1]);
            assert(b.drop_first()[j] == b[j + 1]);
        }
        lemma_children_height_pointwise(a.drop_first(), b.drop_first());
        assert(height(a[0]) == height(b[0]));
    }
}

/// Two graphs that both unfold the module `id` have the same height.
proof fn lemma_height_unique(v: ConfigStoreView, id: Seq<char>, a: ModuleGraph, b: ModuleGraph)
    requires
        unfolds(v, id, a),
        unfolds(v, id, b),
    ensures
        height(a) == height(b),
    decreases a,
{
    let cps = child_paths(config_for(v, id));
    assert forall|j: int| 0 <= j < a.children@.len() implies height(#[trigger] a.children@[j]) == height(b.children@[j]) by {
        assert(is_resolved(v, cps[j]));
        assert(a.children@[j].id@ == b.children@[j].id@);
        lemma_height_unique(v, a.children@[j].id@, a.children@[j], b.children@[j]);
    }
    lemma_children_height_pointwise(a.children@, b.children@);
}

/// Following a walk from a node unfolded by `t` leads, `m - k` levels
/// down, to a resolved node unfolded by a graph that much lower.
proof fn lemma_walk_descends(v: ConfigStoreView, root: Seq<char>, ws: Seq<Seq<char>>, k: int, t: ModuleGraph, m: int)
    requires
        is_path_walk(v, root, ws),
        0 <= k <= m < ws.len(),
        is_resolved(v, ws[k]),
        unfolds(v, id_at(v, ws[k]), t),
    ensures
        is_resolved(v, ws[m]),
        exists|u: ModuleGraph| #[trigger] unfolds(v, id_at(v, ws[m]), u) && height(u) + (m - k) <= height(t),
    decreases m - k,
{
    if m == k {
        assert(unfolds(v, id_at(v, ws[m]), t));
    } else {
        reveal(is_path_walk);
        let cps = child_paths(config_for(v, id_at(v, ws[k])));
        assert(cps.contains(ws[k + 1]));
        let j = choose|j: int| 0 <= j < cps.len() && cps[j] == ws[k + 1];
        assert(is_resolved(v, cps[j]));
        let c = t.children@[j];
        assert(unfolds(v, c.id@, c));
        assert(id_at(v, ws[k + 1]) == c.id@);
        lemma_children_height_bounds(t.children@);
        assert(height(c) < height(t));
        lemma_walk_descends(v, root, ws, k + 1, c, m);
    }
}

/// A successfully loaded module graph has no cyclic module dependency:
/// along every walk of configuration locations from the root, every location
/// is resolved and no module identity occurs twice.
pub proof fn lemma_loaded_graph_is_acyclic(v: ConfigStoreView, root: Seq<char>, g: ModuleGraph, ws: Seq<Seq<char>>)
    requires
        is_resolved(v, root),
        unfolds(v, id_at(v, root), g),
        is_path_walk(v, root, ws),
    ensures
        forall|k: int| 0 <= k < ws.len() ==> is_resolved(v, #[trigger] ws[k]),
        forall|k: int, m: int| 0 <= k < m < ws.len() ==> id_at(v, #[trigger] ws[k]) != id_at(v, #[trigger] ws[m]),
{
    assert(ws[0] == root) by {
        reveal(is_path_walk);
    }
    assert forall|k: int| 0 <= k < ws.len() implies is_resolved(v, #[trigger] ws[k]) by {
        lemma_walk_descends(v, root, ws, 0, g, k);
    }
    assert forall|k: int, m: int| 0 <= k < m < ws.len() implies id_at(v, #[trigger] ws[k]) != id_at(v, #[trigger] ws[m]) by {
        lemma_walk_descends(v, root, ws, 0, g, k);
        let t = choose|u: ModuleGraph| #[trigger] unfolds(v, id_at(v, ws[k]), u) && height(u) + k <= height(g);
        lemma_walk_descends(v, root, ws, k, t, m);
        let u = choose|u: ModuleGraph| #[trigger] unfolds(v, id_at(v, ws[m]), u) && height(u) + (m - k) <= height(t);
        if id_at(v, ws[k]) == id_at(v, ws[m]) {
            lemma_height_unique(v, id_at(v, ws[k]), t, u);
        }
    }
}


/// The store determines the graph of a module: two graphs that both unfold
/// the module `id` hold the same identities, configurations and children.
pub proof fn lemma_unfolds_unique(v: ConfigStoreView, id: Seq<char>, a: ModuleGraph, b: ModuleGraph)
    requires
        unfolds(v, id, a),
        unfolds(v, id, b),
    ensures
        same_graph(a, b),
    decreases a,
{
    let cps = child_paths(config_for(v, id));
    assert forall|j: int| 0 <= j < a.children@.len() implies same_graph(#[trigger] a.children@[j], b.children@[j]) by {
        assert(is_resolved(v, cps[j]));
        assert(a.children@[j].id@ == b.children@[j].id@);
        lemma_unfolds_unique(v, a.children@[j].id@, a.children@[j], b.children@[j]);
    }
}


/// Every module of `g` selects the toolchain family `family`, compared in
/// lower case.
pub open spec fn uses_toolchain_family(g: ModuleGraph, family: Seq<char>) -> bool
    decreases g,
{
    &&& spec_to_lowercase(g.config.toolchain@) == family
    &&& forall|j: int| 0 <= j < g.children@.len() ==> uses_toolchain_family(#[trigger] g.children@[j], family)
}

/// One module tree keeps a single toolchain family: every module of a
/// loaded graph, at any depth, selects the root's family.
pub proof fn lemma_loaded_graph_single_toolchain_family(v: ConfigStoreView, g: ModuleGraph)
    requires
        unfolds(v, g.id@, g),
    ensures
        uses_toolchain_family(g, spec_to_lowercase(g.config.toolchain@)),
    decreases g,
{
    let family = spec_to_lowercase(g.config.toolchain@);
    let cps = child_paths(config_for(v, g.id@));
    assert forall|j: int| 0 <= j < g.children@.len() implies uses_toolchain_family(#[trigger] g.children@[j], family) by {
        let c = g.children@[j];
        assert(is_resolved(v, cps[j]));
        assert(spec_to_lowercase(c.config.toolchain@) == family);
        lemma_loaded_graph_single_toolchain_family(v, c);
    }
}


/// The root's configuration file and the root's project directory are
/// interchangeable: two locations recorded with one module identity load
/// with the same outcome, and into the same graph.
pub proof fn lemma_root_locations_interchangeable(
    v: ConfigStoreView,
    p1: Seq<char>,
    p2: Seq<char>,
    g1: ModuleGraph,
    g2: ModuleGraph,
)
    requires
        store_wf(v),
        is_resolved(v, p1),
        is_resolved(v, p2),
        id_at(v, p1) == id_at(v, p2),
    ensures
        load_outcome(v, p1, Seq::empty()) == load_outcome(v, p2, Seq::empty()),
        unfolds(v, id_at(v, p1), g1) && unfolds(v, id_at(v, p2), g2) ==> same_graph(g1, g2),
{
    assert(visiting_ok(v, Seq::empty()));
    if unfolds(v, id_at(v, p1), g1) && unfolds(v, id_at(v, p2), g2) {
        lemma_unfolds_unique(v, id_at(v, p1), g1, g2);
    }
}

} // verus!
