//! Topological sorting of the module dependency graph with cycle detection.

use vstd::prelude::*;

use crate::model::ModuleIdx;
use crate::namespace::{count_false, lemma_count_false_all_pub, lemma_count_false_mark_pub};
use crate::paths::{components, same_path};
use crate::text::{str_eq, string_clone};

verus! {

/// Internal edges found while scanning, per module: `(specifier, path)`.
pub type EdgeList = Seq<(Seq<char>, Seq<char>)>;

/// The views of an edge list.
pub open spec fn edge_views(v: Seq<(String, String)>) -> EdgeList {
    v.map_values(|e: (String, String)| (e.0@, e.1@))
}

/// Records the internal edge `specifier -> canonical_path` of a module,
/// unless the module has an edge for that specifier already.
pub fn insert_pending_internal_edge(edges: &mut Vec<(String, String)>, specifier: &str, canonical_path: &str)
    ensures
        edge_views(final(edges)@) == if (exists|i: int| 0 <= i < old(edges)@.len() && (#[trigger] old(edges)@[i]).0@ == specifier@) {
            edge_views(old(edges)@)
        } else {
            edge_views(old(edges)@).push((specifier@, canonical_path@))
        },
{
    let mut i: usize = 0;
    while i < edges.len()
        invariant
            0 <= i <= edges@.len(),
            forall|j: int| 0 <= j < i ==> (#[trigger] edges@[j]).0@ != specifier@,
        decreases edges@.len() - i,
    {
        if str_eq(edges[i].0.as_str(), specifier) {
            return;
        }
        i += 1;
    }
    let ghost before = edges@;
    edges.push((string_clone(specifier), string_clone(canonical_path)));
    assert(edge_views(edges@) =~= edge_views(before).push((specifier@, canonical_path@)));
}

/// The module of a path (compared as `Path`s), if any.
pub open spec fn module_of_path(path_to_idx: Seq<(Seq<char>, ModuleIdx)>, p: Seq<char>) -> Option<ModuleIdx>
    decreases path_to_idx.len(),
{
    if path_to_idx.len() == 0 {
        None
    } else if components(path_to_idx[0].0) == components(p) {
        Some(path_to_idx[0].1)
    } else {
        module_of_path(path_to_idx.drop_first(), p)
    }
}

/// The edges of module `idx` (none when it has no entry).
pub open spec fn edges_of(all: Seq<(ModuleIdx, EdgeList)>, idx: ModuleIdx) -> EdgeList
    decreases all.len(),
{
    if all.len() == 0 {
        Seq::empty()
    } else if all[0].0 == idx {
        all[0].1
    } else {
        edges_of(all.drop_first(), idx)
    }
}

/// The state of the depth-first traversal.
pub struct TopoState {
    pub visited: Seq<bool>,
    pub in_stack: Seq<bool>,
    pub order: Seq<ModuleIdx>,
    pub cycles: Seq<Seq<ModuleIdx>>,
}

/// Visits module `idx`: a visited module is skipped; reaching a module on
/// the current path records a cycle at it; else its dependencies are visited
/// in edge order and it is appended to the order after them.
pub open spec fn topo_visit_spec(
    st: TopoState,
    p2i: Seq<(Seq<char>, ModuleIdx)>,
    edges: Seq<(ModuleIdx, EdgeList)>,
    idx: ModuleIdx,
    fuel: nat,
) -> TopoState
    decreases fuel, 0nat, 0nat,
{
    if (idx as int) >= st.visited.len() || (idx as int) >= st.in_stack.len() || st.visited[idx as int] {
        st
    } else if st.in_stack[idx as int] {
        TopoState { visited: st.visited, in_stack: st.in_stack, order: st.order, cycles: st.cycles.push(seq![idx]) }
    } else if fuel == 0 {
        st
    } else {
        let entered = TopoState { visited: st.visited, in_stack: st.in_stack.update(idx as int, true), order: st.order, cycles: st.cycles };
        let after = topo_visit_edges(entered, p2i, edges, edges_of(edges, idx), (fuel - 1) as nat);
        TopoState {
            visited: after.visited.update(idx as int, true),
            in_stack: after.in_stack.update(idx as int, false),
            order: after.order.push(idx),
            cycles: after.cycles,
        }
    }
}

/// Visits the targets of the edges `es`, in order.
pub open spec fn topo_visit_edges(
    st: TopoState,
    p2i: Seq<(Seq<char>, ModuleIdx)>,
    edges: Seq<(ModuleIdx, EdgeList)>,
    es: EdgeList,
    fuel: nat,
) -> TopoState
    decreases fuel, 1nat, es.len(),
{
    if es.len() == 0 {
        st
    } else {
        let prev = topo_visit_edges(st, p2i, edges, es.drop_last(), fuel);
        match module_of_path(p2i, es.last().1) {
            Some(dep) => topo_visit_spec(prev, p2i, edges, dep, fuel),
            None => prev,
        }
    }
}

/// The module of a path, if any.
fn find_module_of_path(path_to_idx: &Vec<(String, ModuleIdx)>, p: &str) -> (r: Option<ModuleIdx>)
    ensures
        r == module_of_path(path_to_idx@.map_values(|e: (String, ModuleIdx)| (e.0@, e.1)), p@),
{
    let ghost v = path_to_idx@.map_values(|e: (String, ModuleIdx)| (e.0@, e.1));
    let mut i: usize = 0;
    assert(v.skip(0) =~= v);
    while i < path_to_idx.len()
        invariant
            0 <= i <= v.len(),
            v == path_to_idx@.map_values(|e: (String, ModuleIdx)| (e.0@, e.1)),
            module_of_path(v, p@) == module_of_path(v.skip(i as int), p@),
        decreases v.len() - i,
    {
        assert(v.skip(i as int).drop_first() =~= v.skip(i + 1));
        assert(v[i as int] == (path_to_idx@[i as int].0@, path_to_idx@[i as int].1));
        if same_path(path_to_idx[i].0.as_str(), p) {
            return Some(path_to_idx[i].1);
        }
        i += 1;
    }
    None
}

/// The views of the per-module edge lists.
pub open spec fn all_edge_views(v: Seq<(ModuleIdx, Vec<(String, String)>)>) -> Seq<(ModuleIdx, EdgeList)> {
    v.map_values(|e: (ModuleIdx, Vec<(String, String)>)| (e.0, edge_views(e.1@)))
}

/// The index of the edge list of module `idx`, if it has one.
fn find_edges(all: &Vec<(ModuleIdx, Vec<(String, String)>)>, idx: ModuleIdx) -> (r: Option<usize>)
    ensures
        match r {
            Some(i) => i < all@.len() && edge_views(all@[i as int].1@) == edges_of(all_edge_views(all@), idx),
            None => edges_of(all_edge_views(all@), idx) == Seq::<(Seq<char>, Seq<char>)>::empty(),
        },
{
    let ghost av = all_edge_views(all@);
    let mut i: usize = 0;
    assert(av.skip(0) =~= av);
    while i < all.len()
        invariant
            0 <= i <= av.len(),
            av == all_edge_views(all@),
            edges_of(av, idx) == edges_of(av.skip(i as int), idx),
        decreases av.len() - i,
    {
        assert(av.skip(i as int).drop_first() =~= av.skip(i + 1));
        assert(av[i as int] == (all@[i as int].0, edge_views(all@[i as int].1@)));
        if all[i].0 == idx {
            return Some(i);
        }
        i += 1;
    }
    None
}

/// Whether every module a path maps to lies below `n`.
pub open spec fn paths_below(p2i: Seq<(Seq<char>, ModuleIdx)>, n: nat) -> bool {
    forall|i: int| 0 <= i < p2i.len() ==> (#[trigger] p2i[i]).1 < n
}

proof fn lemma_module_of_path_below(p2i: Seq<(Seq<char>, ModuleIdx)>, p: Seq<char>, n: nat)
    requires
        paths_below(p2i, n),
    ensures
        module_of_path(p2i, p) matches Some(m) ==> m < n,
    decreases p2i.len(),
{
    if p2i.len() > 0 && components(p2i[0].0) != components(p) {
        assert(paths_below(p2i.drop_first(), n)) by {
            assert forall|i: int| 0 <= i < p2i.drop_first().len() implies (#[trigger] p2i.drop_first()[i]).1 < n by {
                assert(p2i.drop_first()[i] == p2i[i + 1]);
            }
        }
        lemma_module_of_path_below(p2i.drop_first(), p, n);
    }
}

/// The views of the traversal state.
pub open spec fn topo_state(visited: Seq<bool>, in_stack: Seq<bool>, order: Seq<ModuleIdx>, cycles: Seq<Vec<ModuleIdx>>) -> TopoState {
    TopoState { visited, in_stack, order, cycles: cycles.map_values(|c: Vec<ModuleIdx>| c@) }
}

fn topo_visit(
    path_to_idx: &Vec<(String, ModuleIdx)>,
    pending_internal_edges: &Vec<(ModuleIdx, Vec<(String, String)>)>,
    idx: ModuleIdx,
    visited: &mut Vec<bool>,
    in_stack: &mut Vec<bool>,
    order: &mut Vec<ModuleIdx>,
    cycles: &mut Vec<Vec<ModuleIdx>>,
    Ghost(fuel): Ghost<nat>,
)
    requires
        idx < old(visited)@.len(),
        old(visited)@.len() == old(in_stack)@.len(),
        paths_below(path_to_idx@.map_values(|e: (String, ModuleIdx)| (e.0@, e.1)), old(visited)@.len() as nat),
        fuel > count_false(old(in_stack)@),
    ensures
        topo_state(final(visited)@, final(in_stack)@, final(order)@, final(cycles)@) == topo_visit_spec(
            topo_state(old(visited)@, old(in_stack)@, old(order)@, old(cycles)@),
            path_to_idx@.map_values(|e: (String, ModuleIdx)| (e.0@, e.1)),
            all_edge_views(pending_internal_edges@),
            idx,
            fuel,
        ),
        final(visited)@.len() == old(visited)@.len(),
        final(in_stack)@ == old(in_stack)@,
    decreases fuel,
{
    let ghost p2i = path_to_idx@.map_values(|e: (String, ModuleIdx)| (e.0@, e.1));
    let ghost ae = all_edge_views(pending_internal_edges@);
    if visited[idx] {
        return;
    }
    if in_stack[idx] {
        let ghost cb = cycles@;
        let mut cycle: Vec<ModuleIdx> = Vec::new();
        cycle.push(idx);
        assert(cycle@ =~= seq![idx]);
        cycles.push(cycle);
        assert(cycles@.map_values(|c: Vec<ModuleIdx>| c@) =~= cb.map_values(|c: Vec<ModuleIdx>| c@).push(seq![idx]));
        return;
    }
    let ghost in_stack0 = in_stack@;
    proof { lemma_count_false_mark_pub(in_stack@, idx as int); }
    in_stack.set(idx, true);
    let ghost entered = topo_state(visited@, in_stack@, order@, cycles@);
    let ghost es = edges_of(ae, idx);
    match find_edges(pending_internal_edges, idx) {
        Some(ei) => {
            let edges = &pending_internal_edges[ei].1;
            assert(edge_views(edges@) == es);
            let mut k: usize = 0;
            while k < edges.len()
                invariant
                    0 <= k <= es.len(),
                    es == edge_views(edges@),
                    p2i == path_to_idx@.map_values(|e: (String, ModuleIdx)| (e.0@, e.1)),
                    ae == all_edge_views(pending_internal_edges@),
                    visited@.len() == in_stack@.len(),
                    idx < visited@.len(),
                    in_stack@ == in_stack0.update(idx as int, true),
                    count_false(in_stack@) + 1 == count_false(in_stack0),
                    fuel > count_false(in_stack0),
                    paths_below(p2i, visited@.len() as nat),
                    topo_state(visited@, in_stack@, order@, cycles@) == topo_visit_edges(entered, p2i, ae, es.take(k as int), (fuel - 1) as nat),
                decreases es.len() - k,
            {
                proof {
                    let tk = es.take(k + 1);
                    assert(tk.drop_last() =~= es.take(k as int));
                    assert(tk.last() == (edges@[k as int].0@, edges@[k as int].1@));
                }
                match find_module_of_path(path_to_idx, edges[k].1.as_str()) {
                    Some(dep) => {
                        proof { lemma_module_of_path_below(p2i, edges@[k as int].1@, visited@.len() as nat); }
                        topo_visit(path_to_idx, pending_internal_edges, dep, visited, in_stack, order, cycles, Ghost((fuel - 1) as nat));
                    },
                    None => {},
                }
                k += 1;
            }
            assert(es.take(k as int) =~= es);
        },
        None => {
            assert(topo_visit_edges(entered, p2i, ae, es, (fuel - 1) as nat) == entered);
        },
    }
    let ghost after = topo_state(visited@, in_stack@, order@, cycles@);
    in_stack.set(idx, false);
    visited.set(idx, true);
    order.push(idx);
    assert(in_stack@ =~= in_stack0);
}

/// Modules in dependency order (dependencies before dependents) and the
/// circular dependencies found.
pub struct TopologicalSortResult {
    pub order: Vec<ModuleIdx>,
    /// Each cycle as the module at which a back edge was found.
    pub cycles: Vec<Vec<ModuleIdx>>,
}

/// The traversal's state before any visit, over `n` modules.
pub open spec fn topo_start(n: nat) -> TopoState {
    TopoState {
        visited: Seq::new(n, |i: int| false),
        in_stack: Seq::new(n, |i: int| false),
        order: Seq::empty(),
        cycles: Seq::empty(),
    }
}

/// Visits the entries `es` in order.
pub open spec fn topo_visit_entries(st: TopoState, p2i: Seq<(Seq<char>, ModuleIdx)>, edges: Seq<(ModuleIdx, EdgeList)>, es: Seq<ModuleIdx>, fuel: nat) -> TopoState
    decreases es.len(),
{
    if es.len() == 0 {
        st
    } else {
        topo_visit_spec(topo_visit_entries(st, p2i, edges, es.drop_last(), fuel), p2i, edges, es.last(), fuel)
    }
}

/// Topological sort of the modules reachable from the entries, by depth-first
/// post-order over the internal edges (edges whose path is not a module of
/// `path_to_idx` are ignored); a back edge records a cycle.
pub fn topological_sort(
    path_to_idx: &Vec<(String, ModuleIdx)>,
    pending_internal_edges: &Vec<(ModuleIdx, Vec<(String, String)>)>,
    entry_indices: &Vec<ModuleIdx>,
    module_count: usize,
) -> (r: TopologicalSortResult)
    requires
        paths_below(path_to_idx@.map_values(|e: (String, ModuleIdx)| (e.0@, e.1)), module_count as nat),
        forall|i: int| 0 <= i < entry_indices@.len() ==> (#[trigger] entry_indices@[i]) < module_count,
    ensures
        ({
            let fin = topo_visit_entries(
                topo_start(module_count as nat),
                path_to_idx@.map_values(|e: (String, ModuleIdx)| (e.0@, e.1)),
                all_edge_views(pending_internal_edges@),
                entry_indices@,
                (module_count + 1) as nat,
            );
            &&& r.order@ == fin.order
            &&& r.cycles@.map_values(|c: Vec<ModuleIdx>| c@) == fin.cycles
        }),
{
    let ghost p2i = path_to_idx@.map_values(|e: (String, ModuleIdx)| (e.0@, e.1));
    let ghost ae = all_edge_views(pending_internal_edges@);
    let mut visited: Vec<bool> = Vec::new();
    let mut in_stack: Vec<bool> = Vec::new();
    let mut i: usize = 0;
    while i < module_count
        invariant
            0 <= i <= module_count,
            visited@ == Seq::new(i as nat, |j: int| false),
            in_stack@ == Seq::new(i as nat, |j: int| false),
        decreases module_count - i,
    {
        visited.push(false);
        in_stack.push(false);
        assert(visited@ =~= Seq::new((i + 1) as nat, |j: int| false));
        assert(in_stack@ =~= Seq::new((i + 1) as nat, |j: int| false));
        i += 1;
    }
    proof { lemma_count_false_all_pub(module_count as nat); }
    let mut order: Vec<ModuleIdx> = Vec::new();
    let mut cycles: Vec<Vec<ModuleIdx>> = Vec::new();
    let ghost start = topo_state(visited@, in_stack@, order@, cycles@);
    assert(cycles@.map_values(|c: Vec<ModuleIdx>| c@) =~= Seq::<Seq<ModuleIdx>>::empty());
    let ghost in_stack0 = in_stack@;
    let mut e: usize = 0;
    while e < entry_indices.len()
        invariant
            0 <= e <= entry_indices@.len(),
            forall|q: int| 0 <= q < entry_indices@.len() ==> (#[trigger] entry_indices@[q]) < module_count,
            p2i == path_to_idx@.map_values(|e: (String, ModuleIdx)| (e.0@, e.1)),
            ae == all_edge_views(pending_internal_edges@),
            paths_below(p2i, module_count as nat),
            visited@.len() == module_count,
            in_stack@ == in_stack0,
            in_stack0 == Seq::new(module_count as nat, |j: int| false),
            count_false(in_stack0) == module_count,
            topo_state(visited@, in_stack@, order@, cycles@) == topo_visit_entries(start, p2i, ae, entry_indices@.take(e as int), (module_count + 1) as nat),
        decreases entry_indices@.len() - e,
    {
        proof {
            let tk = entry_indices@.take(e + 1);
            assert(tk.drop_last() =~= entry_indices@.take(e as int));
            assert(tk.last() == entry_indices@[e as int]);
        }
        topo_visit(path_to_idx, pending_internal_edges, entry_indices[e], &mut visited, &mut in_stack, &mut order, &mut cycles, Ghost((module_count + 1) as nat));
        e += 1;
    }
    assert(entry_indices@.take(e as int) =~= entry_indices@);
    TopologicalSortResult { order, cycles }
}


/// The module the `k`-th internal edge of module `a` points to, if any.
pub open spec fn dep_of(p2i: Seq<(Seq<char>, ModuleIdx)>, edges: Seq<(ModuleIdx, EdgeList)>, a: ModuleIdx, k: int) -> Option<ModuleIdx> {
    module_of_path(p2i, edges_of(edges, a)[k].1)
}

/// Every dependency of a module in the order comes earlier in the order, or
/// a cycle was recorded at it.
pub open spec fn deps_first(st: TopoState, p2i: Seq<(Seq<char>, ModuleIdx)>, edges: Seq<(ModuleIdx, EdgeList)>) -> bool {
    forall|i: int, k: int|
        #![trigger dep_of(p2i, edges, st.order[i], k)]
        0 <= i < st.order.len() && 0 <= k < edges_of(edges, st.order[i]).len() && dep_of(p2i, edges, st.order[i], k) is Some ==> (
            (exists|j: int| 0 <= j < i && st.order[j] == dep_of(p2i, edges, st.order[i], k)->0)
            || st.cycles.contains(seq![dep_of(p2i, edges, st.order[i], k)->0]))
}

/// What the traversal keeps true of its state over `n` modules.
spec fn topo_inv(st: TopoState, p2i: Seq<(Seq<char>, ModuleIdx)>, edges: Seq<(ModuleIdx, EdgeList)>, n: nat) -> bool {
    &&& st.visited.len() == n
    &&& st.in_stack.len() == n
    &&& forall|x: ModuleIdx| (x as int) < n ==> (#[trigger] st.visited[x as int] <==> st.order.contains(x))
    &&& forall|i: int| 0 <= i < st.order.len() ==> (#[trigger] st.order[i]) < n
    &&& st.order.no_duplicates()
    &&& forall|x: int| 0 <= x < n && #[trigger] st.in_stack[x] ==> !st.visited[x]
    &&& deps_first(st, p2i, edges)
}

/// `b` extends `a`: the order and the cycles only grow, the visited modules
/// stay visited, and the current path is unchanged.
spec fn topo_grows(a: TopoState, b: TopoState) -> bool {
    &&& a.order.len() <= b.order.len()
    &&& b.order.take(a.order.len() as int) == a.order
    &&& a.cycles.len() <= b.cycles.len()
    &&& b.cycles.take(a.cycles.len() as int) == a.cycles
    &&& b.in_stack == a.in_stack
    &&& b.visited.len() == a.visited.len()
    &&& forall|x: int| 0 <= x < a.visited.len() && #[trigger] a.visited[x] ==> b.visited[x]
}

proof fn lemma_grows_keeps_deps_first(a: TopoState, b: TopoState, p2i: Seq<(Seq<char>, ModuleIdx)>, edges: Seq<(ModuleIdx, EdgeList)>, i: int, k: int)
    requires
        topo_grows(a, b),
        deps_first(a, p2i, edges),
        0 <= i < a.order.len(),
        0 <= k < edges_of(edges, a.order[i]).len(),
        dep_of(p2i, edges, a.order[i], k) is Some,
    ensures
        b.order[i] == a.order[i],
        (exists|j: int| 0 <= j < i && b.order[j] == dep_of(p2i, edges, a.order[i], k)->0)
            || b.cycles.contains(seq![dep_of(p2i, edges, a.order[i], k)->0]),
{
    assert(b.order.take(a.order.len() as int)[i] == b.order[i]);
    let d = dep_of(p2i, edges, a.order[i], k)->0;
    if exists|j: int| 0 <= j < i && a.order[j] == d {
        let j = choose|j: int| 0 <= j < i && a.order[j] == d;
        assert(b.order.take(a.order.len() as int)[j] == b.order[j]);
    } else {
        assert(a.cycles.contains(seq![d]));
        let c = choose|c: int| 0 <= c < a.cycles.len() && a.cycles[c] == seq![d];
        assert(b.cycles.take(a.cycles.len() as int)[c] == b.cycles[c]);
    }
}

proof fn lemma_topo_visit(st: TopoState, p2i: Seq<(Seq<char>, ModuleIdx)>, edges: Seq<(ModuleIdx, EdgeList)>, idx: ModuleIdx, fuel: nat, n: nat)
    requires
        topo_inv(st, p2i, edges, n),
        paths_below(p2i, n),
        idx < n,
        fuel > count_false(st.in_stack),
    ensures
        topo_inv(topo_visit_spec(st, p2i, edges, idx, fuel), p2i, edges, n),
        topo_grows(st, topo_visit_spec(st, p2i, edges, idx, fuel)),
        topo_visit_spec(st, p2i, edges, idx, fuel).visited[idx as int]
            || (st.in_stack[idx as int] && topo_visit_spec(st, p2i, edges, idx, fuel).cycles.contains(seq![idx])),
    decreases fuel, 0nat, 0nat,
{
    let r = topo_visit_spec(st, p2i, edges, idx, fuel);
    if st.visited[idx as int] {
        assert(st.order.take(st.order.len() as int) =~= st.order);
        assert(st.cycles.take(st.cycles.len() as int) =~= st.cycles);
    } else if st.in_stack[idx as int] {
        assert(st.order.take(st.order.len() as int) =~= st.order);
        assert(r.cycles.take(st.cycles.len() as int) =~= st.cycles);
        assert(r.cycles[st.cycles.len() as int] == seq![idx]);
        assert forall|i: int, k: int|
            0 <= i < r.order.len() && 0 <= k < edges_of(edges, r.order[i]).len() && #[trigger] dep_of(p2i, edges, r.order[i], k) is Some implies (
                (exists|j: int| 0 <= j < i && r.order[j] == dep_of(p2i, edges, r.order[i], k)->0)
                || r.cycles.contains(seq![dep_of(p2i, edges, r.order[i], k)->0])) by {
            lemma_grows_keeps_deps_first(st, r, p2i, edges, i, k);
        }
    } else {
        lemma_count_false_mark_pub(st.in_stack, idx as int);
        let entered = TopoState { visited: st.visited, in_stack: st.in_stack.update(idx as int, true), order: st.order, cycles: st.cycles };
        let es = edges_of(edges, idx);
        assert(topo_inv(entered, p2i, edges, n));
        lemma_topo_visit_edges(entered, p2i, edges, es, (fuel - 1) as nat, n);
        let after = topo_visit_edges(entered, p2i, edges, es, (fuel - 1) as nat);
        assert(after.in_stack[idx as int]);
        assert(!after.visited[idx as int]);
        assert(!after.order.contains(idx));
        assert(r.order == after.order.push(idx));
        assert(r.in_stack =~= st.in_stack);
        assert(r.order.take(st.order.len() as int) =~= after.order.take(st.order.len() as int));
        assert(r.cycles =~= after.cycles);
        assert forall|x: ModuleIdx| (x as int) < n implies (#[trigger] r.visited[x as int] <==> r.order.contains(x)) by {
            assert(r.order[after.order.len() as int] == idx);
            if x != idx {
                if after.order.contains(x) {
                    let j = choose|j: int| 0 <= j < after.order.len() && after.order[j] == x;
                    assert(r.order[j] == x);
                }
                if r.order.contains(x) {
                    let j = choose|j: int| 0 <= j < r.order.len() && r.order[j] == x;
                    assert(j < after.order.len());
                    assert(after.order[j] == x);
                }
            }
        }
        assert(r.order.no_duplicates()) by {
            assert forall|a: int, b: int| 0 <= a < r.order.len() && 0 <= b < r.order.len() && a != b implies r.order[a] != r.order[b] by {
                if a == after.order.len() as int && b < after.order.len() {
                    assert(after.order[b] == r.order[b]);
                } else if b == after.order.len() as int && a < after.order.len() {
                    assert(after.order[a] == r.order[a]);
                }
            }
        }
        assert forall|i: int, k: int|
            0 <= i < r.order.len() && 0 <= k < edges_of(edges, r.order[i]).len() && #[trigger] dep_of(p2i, edges, r.order[i], k) is Some implies (
                (exists|j: int| 0 <= j < i && r.order[j] == dep_of(p2i, edges, r.order[i], k)->0)
                || r.cycles.contains(seq![dep_of(p2i, edges, r.order[i], k)->0])) by {
            let d = dep_of(p2i, edges, r.order[i], k)->0;
            if i < after.order.len() {
                assert(r.order[i] == after.order[i]);
                assert(dep_of(p2i, edges, after.order[i], k) is Some);
                if exists|j: int| 0 <= j < i && after.order[j] == d {
                    let j = choose|j: int| 0 <= j < i && after.order[j] == d;
                    assert(r.order[j] == d);
                }
            } else {
                assert(r.order[i] == idx);
                lemma_module_of_path_below(p2i, es[k].1, n);
                assert(after.visited[d as int] || after.cycles.contains(seq![d]));
                if after.visited[d as int] {
                    assert(after.order.contains(d));
                    let j = choose|j: int| 0 <= j < after.order.len() && after.order[j] == d;
                    assert(r.order[j] == d);
                }
            }
        }
        assert forall|x: int| 0 <= x < st.visited.len() && #[trigger] st.visited[x] implies r.visited[x] by {
            assert(after.visited[x]);
        }
    }
}

proof fn lemma_topo_visit_edges(st: TopoState, p2i: Seq<(Seq<char>, ModuleIdx)>, edges: Seq<(ModuleIdx, EdgeList)>, es: EdgeList, fuel: nat, n: nat)
    requires
        topo_inv(st, p2i, edges, n),
        paths_below(p2i, n),
        fuel > count_false(st.in_stack),
    ensures
        topo_inv(topo_visit_edges(st, p2i, edges, es, fuel), p2i, edges, n),
        topo_grows(st, topo_visit_edges(st, p2i, edges, es, fuel)),
        forall|k: int|
            0 <= k < es.len() && #[trigger] module_of_path(p2i, es[k].1) is Some ==> ({
                let d = module_of_path(p2i, es[k].1)->0;
                topo_visit_edges(st, p2i, edges, es, fuel).visited[d as int]
                    || topo_visit_edges(st, p2i, edges, es, fuel).cycles.contains(seq![d])
            }),
    decreases fuel, 1nat, es.len(),
{
    let r = topo_visit_edges(st, p2i, edges, es, fuel);
    if es.len() == 0 {
        assert(st.order.take(st.order.len() as int) =~= st.order);
        assert(st.cycles.take(st.cycles.len() as int) =~= st.cycles);
    } else {
        lemma_topo_visit_edges(st, p2i, edges, es.drop_last(), fuel, n);
        let prev = topo_visit_edges(st, p2i, edges, es.drop_last(), fuel);
        match module_of_path(p2i, es.last().1) {
            Some(dep) => {
                lemma_module_of_path_below(p2i, es.last().1, n);
                lemma_topo_visit(prev, p2i, edges, dep, fuel, n);
                assert(r.order.take(st.order.len() as int) =~= r.order.take(prev.order.len() as int).take(st.order.len() as int));
                assert(r.cycles.take(st.cycles.len() as int) =~= r.cycles.take(prev.cycles.len() as int).take(st.cycles.len() as int));
                assert forall|k: int|
                    0 <= k < es.len() && #[trigger] module_of_path(p2i, es[k].1) is Some implies ({
                        let d = module_of_path(p2i, es[k].1)->0;
                        r.visited[d as int] || r.cycles.contains(seq![d])
                    }) by {
                    let d = module_of_path(p2i, es[k].1)->0;
                    if k < es.len() - 1 {
                        assert(es.drop_last()[k] == es[k]);
                        lemma_module_of_path_below(p2i, es[k].1, n);
                        if prev.cycles.contains(seq![d]) {
                            let c = choose|c: int| 0 <= c < prev.cycles.len() && prev.cycles[c] == seq![d];
                            assert(r.cycles.take(prev.cycles.len() as int)[c] == r.cycles[c]);
                        }
                    }
                }
            },
            None => {
                assert forall|k: int|
                    0 <= k < es.len() && #[trigger] module_of_path(p2i, es[k].1) is Some implies ({
                        let d = module_of_path(p2i, es[k].1)->0;
                        r.visited[d as int] || r.cycles.contains(seq![d])
                    }) by {
                    assert(es.drop_last()[k] == es[k]);
                }
            },
        }
    }
}


proof fn lemma_topo_visit_entries(st: TopoState, p2i: Seq<(Seq<char>, ModuleIdx)>, edges: Seq<(ModuleIdx, EdgeList)>, es: Seq<ModuleIdx>, fuel: nat, n: nat)
    requires
        topo_inv(st, p2i, edges, n),
        paths_below(p2i, n),
        fuel > count_false(st.in_stack),
        forall|x: int| 0 <= x < n ==> !#[trigger] st.in_stack[x],
        forall|i: int| 0 <= i < es.len() ==> (#[trigger] es[i]) < n,
    ensures
        topo_inv(topo_visit_entries(st, p2i, edges, es, fuel), p2i, edges, n),
        topo_grows(st, topo_visit_entries(st, p2i, edges, es, fuel)),
        forall|i: int| 0 <= i < es.len() ==> topo_visit_entries(st, p2i, edges, es, fuel).visited[#[trigger] es[i] as int],
    decreases es.len(),
{
    let r = topo_visit_entries(st, p2i, edges, es, fuel);
    if es.len() == 0 {
        assert(st.order.take(st.order.len() as int) =~= st.order);
        assert(st.cycles.take(st.cycles.len() as int) =~= st.cycles);
    } else {
        lemma_topo_visit_entries(st, p2i, edges, es.drop_last(), fuel, n);
        let prev = topo_visit_entries(st, p2i, edges, es.drop_last(), fuel);
        lemma_topo_visit(prev, p2i, edges, es.last(), fuel, n);
        assert(r.order.take(st.order.len() as int) =~= r.order.take(prev.order.len() as int).take(st.order.len() as int));
        assert(r.cycles.take(st.cycles.len() as int) =~= r.cycles.take(prev.cycles.len() as int).take(st.cycles.len() as int));
        assert forall|i: int| 0 <= i < es.len() implies r.visited[#[trigger] es[i] as int] by {
            if i < es.len() - 1 {
                assert(es.drop_last()[i] == es[i]);
            }
        }
    }
}

/// Law: the topological order lists each module at most once, lists every
/// entry, and puts every module's dependencies before it, except where the
/// traversal recorded a cycle at the dependency.
pub proof fn law_topological_order(p2i: Seq<(Seq<char>, ModuleIdx)>, edges: Seq<(ModuleIdx, EdgeList)>, entries: Seq<ModuleIdx>, n: nat)
    requires
        paths_below(p2i, n),
        forall|i: int| 0 <= i < entries.len() ==> (#[trigger] entries[i]) < n,
    ensures
        ({
            let fin = topo_visit_entries(topo_start(n), p2i, edges, entries, n + 1);
            &&& fin.order.no_duplicates()
            &&& forall|i: int| 0 <= i < entries.len() ==> fin.order.contains(#[trigger] entries[i])
            &&& deps_first(fin, p2i, edges)
        }),
{
    let st = topo_start(n);
    lemma_count_false_all_pub(n);
    assert(topo_inv(st, p2i, edges, n));
    lemma_topo_visit_entries(st, p2i, edges, entries, n + 1, n);
    let fin = topo_visit_entries(st, p2i, edges, entries, n + 1);
    assert forall|i: int| 0 <= i < entries.len() implies fin.order.contains(#[trigger] entries[i]) by {
        assert(fin.visited[entries[i] as int]);
    }
}


/// Module `b` is a dependency of module `a` through one of its internal edges.
pub open spec fn depends_on(p2i: Seq<(Seq<char>, ModuleIdx)>, edges: Seq<(ModuleIdx, EdgeList)>, a: ModuleIdx, b: ModuleIdx) -> bool {
    exists|e: int| 0 <= e < edges_of(edges, a).len() && #[trigger] dep_of(p2i, edges, a, e) == Some(b)
}

/// `path` follows internal edges from one of `entries`: each module after
/// the first is a dependency of the one before it.
pub open spec fn is_dep_path(p2i: Seq<(Seq<char>, ModuleIdx)>, edges: Seq<(ModuleIdx, EdgeList)>, entries: Seq<ModuleIdx>, path: Seq<ModuleIdx>) -> bool {
    &&& path.len() > 0
    &&& entries.contains(path[0])
    &&& forall|k: int| #![trigger path[k]] 0 <= k < path.len() - 1 ==> depends_on(p2i, edges, path[k], path[k + 1])
}

proof fn lemma_path_ordered(
    fin: TopoState,
    p2i: Seq<(Seq<char>, ModuleIdx)>,
    edges: Seq<(ModuleIdx, EdgeList)>,
    entries: Seq<ModuleIdx>,
    path: Seq<ModuleIdx>,
)
    requires
        is_dep_path(p2i, edges, entries, path),
        deps_first(fin, p2i, edges),
        fin.cycles.len() == 0,
        forall|i: int| 0 <= i < entries.len() ==> fin.order.contains(#[trigger] entries[i]),
    ensures
        fin.order.contains(path.last()),
    decreases path.len(),
{
    if path.len() == 1 {
        let i = choose|i: int| 0 <= i < entries.len() && entries[i] == path[0];
        assert(fin.order.contains(entries[i]));
    } else {
        let d = path.drop_last();
        assert(is_dep_path(p2i, edges, entries, d)) by {
            assert forall|k: int| #![trigger d[k]] 0 <= k < d.len() - 1 implies depends_on(p2i, edges, d[k], d[k + 1]) by {
                assert(d[k] == path[k] && d[k + 1] == path[k + 1]);
            }
        }
        lemma_path_ordered(fin, p2i, edges, entries, d);
        let k = path.len() - 2;
        assert(d.last() == path[k]);
        assert(depends_on(p2i, edges, path[k], path[k + 1]));
        let e = choose|e: int| 0 <= e < edges_of(edges, path[k]).len() && #[trigger] dep_of(p2i, edges, path[k], e) == Some(path[k + 1]);
        let i = choose|i: int| 0 <= i < fin.order.len() && fin.order[i] == path[k];
        assert(dep_of(p2i, edges, fin.order[i], e) == Some(path[k + 1]));
        assert(!fin.cycles.contains(seq![path[k + 1]]));
        let j = choose|j: int| 0 <= j < i && fin.order[j] == dep_of(p2i, edges, fin.order[i], e)->0;
        assert(fin.order[j] == path.last());
    }
}

/// Law: when the traversal records no cycle, every module reachable from an
/// entry along internal edges is in the topological order.
pub proof fn law_reachable_modules_ordered(
    p2i: Seq<(Seq<char>, ModuleIdx)>,
    edges: Seq<(ModuleIdx, EdgeList)>,
    entries: Seq<ModuleIdx>,
    n: nat,
    path: Seq<ModuleIdx>,
)
    requires
        paths_below(p2i, n),
        forall|i: int| 0 <= i < entries.len() ==> (#[trigger] entries[i]) < n,
        is_dep_path(p2i, edges, entries, path),
        topo_visit_entries(topo_start(n), p2i, edges, entries, n + 1).cycles.len() == 0,
    ensures
        topo_visit_entries(topo_start(n), p2i, edges, entries, n + 1).order.contains(path.last()),
{
    law_topological_order(p2i, edges, entries, n);
    lemma_path_ordered(topo_visit_entries(topo_start(n), p2i, edges, entries, n + 1), p2i, edges, entries, path);
}

/// `path` is a chain of at least one dependency edge.
pub open spec fn dep_chain(p2i: Seq<(Seq<char>, ModuleIdx)>, edges: Seq<(ModuleIdx, EdgeList)>, path: Seq<ModuleIdx>) -> bool {
    &&& path.len() >= 2
    &&& forall|k: int| #![trigger path[k]] 0 <= k < path.len() - 1 ==> depends_on(p2i, edges, path[k], path[k + 1])
}

/// Module `b` is reached from module `a` along one or more dependency edges.
pub open spec fn reaches(p2i: Seq<(Seq<char>, ModuleIdx)>, edges: Seq<(ModuleIdx, EdgeList)>, a: ModuleIdx, b: ModuleIdx) -> bool {
    exists|path: Seq<ModuleIdx>| #[trigger] dep_chain(p2i, edges, path) && path[0] == a && path.last() == b
}

/// Every recorded cycle names a module that reaches itself.
pub open spec fn cycles_real(p2i: Seq<(Seq<char>, ModuleIdx)>, edges: Seq<(ModuleIdx, EdgeList)>, cycles: Seq<Seq<ModuleIdx>>) -> bool {
    forall|i: int|
        0 <= i < cycles.len() ==> (#[trigger] cycles[i]).len() == 1 && reaches(p2i, edges, cycles[i][0], cycles[i][0])
}

proof fn lemma_reaches_step(p2i: Seq<(Seq<char>, ModuleIdx)>, edges: Seq<(ModuleIdx, EdgeList)>, a: ModuleIdx, b: ModuleIdx, c: ModuleIdx)
    requires
        a == b || reaches(p2i, edges, a, b),
        depends_on(p2i, edges, b, c),
    ensures
        reaches(p2i, edges, a, c),
{
    if a == b {
        let path = seq![b, c];
        assert(path[0] == b && path[1] == c);
        assert(dep_chain(p2i, edges, path));
    } else {
        let path = choose|path: Seq<ModuleIdx>| #[trigger] dep_chain(p2i, edges, path) && path[0] == a && path.last() == b;
        let p2 = path.push(c);
        assert(p2[0] == a);
        assert forall|k: int| #![trigger p2[k]] 0 <= k < p2.len() - 1 implies depends_on(p2i, edges, p2[k], p2[k + 1]) by {
            if k < path.len() - 1 {
                assert(p2[k] == path[k] && p2[k + 1] == path[k + 1]);
            } else {
                assert(p2[k] == path.last() && p2[k + 1] == c);
            }
        }
        assert(dep_chain(p2i, edges, p2));
    }
}

proof fn lemma_cycles_visit(st: TopoState, p2i: Seq<(Seq<char>, ModuleIdx)>, edges: Seq<(ModuleIdx, EdgeList)>, idx: ModuleIdx, fuel: nat)
    requires
        cycles_real(p2i, edges, st.cycles),
        forall|x: ModuleIdx| (x as int) < st.in_stack.len() && #[trigger] st.in_stack[x as int] ==> reaches(p2i, edges, x, idx),
    ensures
        cycles_real(p2i, edges, topo_visit_spec(st, p2i, edges, idx, fuel).cycles),
        topo_visit_spec(st, p2i, edges, idx, fuel).in_stack == st.in_stack,
    decreases fuel, 0nat, 0nat,
{
    let r = topo_visit_spec(st, p2i, edges, idx, fuel);
    if (idx as int) >= st.visited.len() || (idx as int) >= st.in_stack.len() || st.visited[idx as int] {
    } else if st.in_stack[idx as int] {
        assert(reaches(p2i, edges, idx, idx));
        assert forall|i: int| 0 <= i < r.cycles.len() implies (#[trigger] r.cycles[i]).len() == 1 && reaches(p2i, edges, r.cycles[i][0], r.cycles[i][0]) by {
            if i < st.cycles.len() {
                assert(r.cycles[i] == st.cycles[i]);
            } else {
                assert(r.cycles[i] == seq![idx]);
            }
        }
    } else if fuel == 0 {
    } else {
        let entered = TopoState { visited: st.visited, in_stack: st.in_stack.update(idx as int, true), order: st.order, cycles: st.cycles };
        let es = edges_of(edges, idx);
        assert(es.take(es.len() as int) =~= es);
        assert forall|x: ModuleIdx| (x as int) < entered.in_stack.len() && #[trigger] entered.in_stack[x as int] implies x == idx || reaches(
            p2i,
            edges,
            x,
            idx,
        ) by {
            if x != idx {
                assert(st.in_stack[x as int]);
            }
        }
        lemma_cycles_edges(entered, p2i, edges, idx, es, (fuel - 1) as nat);
        let after = topo_visit_edges(entered, p2i, edges, es, (fuel - 1) as nat);
        assert(r.in_stack =~= st.in_stack);
    }
}

proof fn lemma_cycles_edges(
    st: TopoState,
    p2i: Seq<(Seq<char>, ModuleIdx)>,
    edges: Seq<(ModuleIdx, EdgeList)>,
    owner: ModuleIdx,
    es: EdgeList,
    fuel: nat,
)
    requires
        cycles_real(p2i, edges, st.cycles),
        es.len() <= edges_of(edges, owner).len(),
        es == edges_of(edges, owner).take(es.len() as int),
        forall|x: ModuleIdx| (x as int) < st.in_stack.len() && #[trigger] st.in_stack[x as int] ==> x == owner || reaches(p2i, edges, x, owner),
    ensures
        cycles_real(p2i, edges, topo_visit_edges(st, p2i, edges, es, fuel).cycles),
        topo_visit_edges(st, p2i, edges, es, fuel).in_stack == st.in_stack,
    decreases fuel, 1nat, es.len(),
{
    if es.len() > 0 {
        let d = es.drop_last();
        assert(d == edges_of(edges, owner).take(d.len() as int));
        lemma_cycles_edges(st, p2i, edges, owner, d, fuel);
        let prev = topo_visit_edges(st, p2i, edges, d, fuel);
        match module_of_path(p2i, es.last().1) {
            Some(dep) => {
                let e = es.len() - 1;
                assert(es.last() == edges_of(edges, owner)[e]);
                assert(dep_of(p2i, edges, owner, e) == Some(dep));
                assert(depends_on(p2i, edges, owner, dep));
                assert forall|x: ModuleIdx| (x as int) < prev.in_stack.len() && #[trigger] prev.in_stack[x as int] implies reaches(
                    p2i,
                    edges,
                    x,
                    dep,
                ) by {
                    assert(st.in_stack[x as int]);
                    lemma_reaches_step(p2i, edges, x, owner, dep);
                }
                lemma_cycles_visit(prev, p2i, edges, dep, fuel);
            },
            None => {},
        }
    }
}

proof fn lemma_cycles_entries(st: TopoState, p2i: Seq<(Seq<char>, ModuleIdx)>, edges: Seq<(ModuleIdx, EdgeList)>, es: Seq<ModuleIdx>, fuel: nat)
    requires
        cycles_real(p2i, edges, st.cycles),
        forall|x: int| 0 <= x < st.in_stack.len() ==> !#[trigger] st.in_stack[x],
    ensures
        cycles_real(p2i, edges, topo_visit_entries(st, p2i, edges, es, fuel).cycles),
        topo_visit_entries(st, p2i, edges, es, fuel).in_stack == st.in_stack,
    decreases es.len(),
{
    if es.len() > 0 {
        lemma_cycles_entries(st, p2i, edges, es.drop_last(), fuel);
        let prev = topo_visit_entries(st, p2i, edges, es.drop_last(), fuel);
        lemma_cycles_visit(prev, p2i, edges, es.last(), fuel);
    }
}

/// Law: every cycle the topological sort reports is a real one: the module
/// it names reaches itself along dependency edges.
pub proof fn law_reported_cycles_are_real(p2i: Seq<(Seq<char>, ModuleIdx)>, edges: Seq<(ModuleIdx, EdgeList)>, entries: Seq<ModuleIdx>, n: nat)
    ensures
        cycles_real(p2i, edges, topo_visit_entries(topo_start(n), p2i, edges, entries, n + 1).cycles),
{
    lemma_cycles_entries(topo_start(n), p2i, edges, entries, n + 1);
}

/// Module `x` is one of `entries` or is reached from one of them.
pub open spec fn from_entries(p2i: Seq<(Seq<char>, ModuleIdx)>, edges: Seq<(ModuleIdx, EdgeList)>, entries: Seq<ModuleIdx>, x: ModuleIdx) -> bool {
    exists|i: int| 0 <= i < entries.len() && (#[trigger] entries[i] == x || reaches(p2i, edges, entries[i], x))
}

/// Every module of `order` is an entry or reached from one.
pub open spec fn order_from_entries(p2i: Seq<(Seq<char>, ModuleIdx)>, edges: Seq<(ModuleIdx, EdgeList)>, entries: Seq<ModuleIdx>, order: Seq<ModuleIdx>) -> bool {
    forall|i: int| 0 <= i < order.len() ==> from_entries(p2i, edges, entries, #[trigger] order[i])
}

proof fn lemma_from_entries_step(p2i: Seq<(Seq<char>, ModuleIdx)>, edges: Seq<(ModuleIdx, EdgeList)>, entries: Seq<ModuleIdx>, b: ModuleIdx, c: ModuleIdx)
    requires
        from_entries(p2i, edges, entries, b),
        depends_on(p2i, edges, b, c),
    ensures
        from_entries(p2i, edges, entries, c),
{
    let i = choose|i: int| 0 <= i < entries.len() && (#[trigger] entries[i] == b || reaches(p2i, edges, entries[i], b));
    lemma_reaches_step(p2i, edges, entries[i], b, c);
}

proof fn lemma_order_visit(st: TopoState, p2i: Seq<(Seq<char>, ModuleIdx)>, edges: Seq<(ModuleIdx, EdgeList)>, entries: Seq<ModuleIdx>, idx: ModuleIdx, fuel: nat)
    requires
        order_from_entries(p2i, edges, entries, st.order),
        from_entries(p2i, edges, entries, idx),
    ensures
        order_from_entries(p2i, edges, entries, topo_visit_spec(st, p2i, edges, idx, fuel).order),
    decreases fuel, 0nat, 0nat,
{
    if !((idx as int) >= st.visited.len() || (idx as int) >= st.in_stack.len() || st.visited[idx as int])
        && !st.in_stack[idx as int] && fuel > 0 {
        let entered = TopoState { visited: st.visited, in_stack: st.in_stack.update(idx as int, true), order: st.order, cycles: st.cycles };
        let es = edges_of(edges, idx);
        assert(es.take(es.len() as int) =~= es);
        lemma_order_edges(entered, p2i, edges, entries, idx, es, (fuel - 1) as nat);
        let after = topo_visit_edges(entered, p2i, edges, es, (fuel - 1) as nat);
        let r = topo_visit_spec(st, p2i, edges, idx, fuel);
        assert(r.order == after.order.push(idx));
        assert forall|i: int| 0 <= i < r.order.len() implies from_entries(p2i, edges, entries, #[trigger] r.order[i]) by {
            if i < after.order.len() {
                assert(r.order[i] == after.order[i]);
            }
        }
    }
}

proof fn lemma_order_edges(
    st: TopoState,
    p2i: Seq<(Seq<char>, ModuleIdx)>,
    edges: Seq<(ModuleIdx, EdgeList)>,
    entries: Seq<ModuleIdx>,
    owner: ModuleIdx,
    es: EdgeList,
    fuel: nat,
)
    requires
        order_from_entries(p2i, edges, entries, st.order),
        from_entries(p2i, edges, entries, owner),
        es.len() <= edges_of(edges, owner).len(),
        es == edges_of(edges, owner).take(es.len() as int),
    ensures
        order_from_entries(p2i, edges, entries, topo_visit_edges(st, p2i, edges, es, fuel).order),
    decreases fuel, 1nat, es.len(),
{
    if es.len() > 0 {
        let d = es.drop_last();
        assert(d == edges_of(edges, owner).take(d.len() as int));
        lemma_order_edges(st, p2i, edges, entries, owner, d, fuel);
        let prev = topo_visit_edges(st, p2i, edges, d, fuel);
        match module_of_path(p2i, es.last().1) {
            Some(dep) => {
                let e = es.len() - 1;
                assert(es.last() == edges_of(edges, owner)[e]);
                assert(dep_of(p2i, edges, owner, e) == Some(dep));
                assert(depends_on(p2i, edges, owner, dep));
                lemma_from_entries_step(p2i, edges, entries, owner, dep);
                lemma_order_visit(prev, p2i, edges, entries, dep, fuel);
            },
            None => {},
        }
    }
}

proof fn lemma_order_entries(st: TopoState, p2i: Seq<(Seq<char>, ModuleIdx)>, edges: Seq<(ModuleIdx, EdgeList)>, entries: Seq<ModuleIdx>, k: int, fuel: nat)
    requires
        0 <= k <= entries.len(),
        order_from_entries(p2i, edges, entries, st.order),
    ensures
        order_from_entries(p2i, edges, entries, topo_visit_entries(st, p2i, edges, entries.take(k), fuel).order),
    decreases k,
{
    if k > 0 {
        let tk = entries.take(k);
        assert(tk.drop_last() =~= entries.take(k - 1));
        lemma_order_entries(st, p2i, edges, entries, k - 1, fuel);
        let prev = topo_visit_entries(st, p2i, edges, entries.take(k - 1), fuel);
        assert(tk.last() == entries[k - 1]);
        assert(from_entries(p2i, edges, entries, entries[k - 1]));
        lemma_order_visit(prev, p2i, edges, entries, entries[k - 1], fuel);
    }
}

/// Law: the topological order lists only modules that are entries or are
/// reached from an entry along dependency edges.
pub proof fn law_ordered_modules_are_reachable(p2i: Seq<(Seq<char>, ModuleIdx)>, edges: Seq<(ModuleIdx, EdgeList)>, entries: Seq<ModuleIdx>, n: nat)
    ensures
        order_from_entries(p2i, edges, entries, topo_visit_entries(topo_start(n), p2i, edges, entries, n + 1).order),
{
    lemma_order_entries(topo_start(n), p2i, edges, entries, entries.len() as int, n + 1);
    assert(entries.take(entries.len() as int) =~= entries);
}

/// For each of the `n` modules, its position in `order`, if it is there:
/// the map from old to new indices once the modules are reindexed in
/// topological order (positions are unique since the order lists each
/// module once).
pub fn reindex_map(order: &Vec<ModuleIdx>, n: usize) -> (r: Vec<Option<usize>>)
    requires
        forall|i: int| 0 <= i < order@.len() ==> (#[trigger] order@[i]) < n,
    ensures
        r@.len() == n,
        forall|x: int| 0 <= x < n ==> match #[trigger] r@[x] {
            Some(i) => i < order@.len() && order@[i as int] == x,
            None => !order@.contains(x as ModuleIdx),
        },
{
    let mut r: Vec<Option<usize>> = Vec::new();
    let mut k: usize = 0;
    while k < n
        invariant
            0 <= k <= n,
            r@.len() == k,
            forall|x: int| 0 <= x < k ==> r@[x] is None,
        decreases n - k,
    {
        r.push(None);
        k += 1;
    }
    let mut i: usize = 0;
    while i < order.len()
        invariant
            0 <= i <= order@.len(),
            r@.len() == n,
            forall|q: int| 0 <= q < order@.len() ==> (#[trigger] order@[q]) < n,
            forall|x: int| 0 <= x < n ==> match #[trigger] r@[x] {
                Some(p) => p < i && order@[p as int] == x,
                None => forall|q: int| 0 <= q < i ==> order@[q] != x,
            },
        decreases order@.len() - i,
    {
        let x = order[i];
        r.set(x, Some(i));
        i += 1;
    }
    assert forall|x: int| 0 <= x < n implies match #[trigger] r@[x] {
        Some(p) => p < order@.len() && order@[p as int] == x,
        None => !order@.contains(x as ModuleIdx),
    } by {
        if r@[x] is None {
            if order@.contains(x as ModuleIdx) {
                let q = choose|q: int| 0 <= q < order@.len() && order@[q] == x as ModuleIdx;
                assert(order@[q] != x);
            }
        }
    }
    r
}

} // verus!
