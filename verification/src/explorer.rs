//! Explicit-state exploration: breadth-first and depth-first search,
//! shortest paths, and queries over the states.

use std::collections::HashSet;
use vstd::prelude::*;
use crate::model::GraphModel;
use crate::seqs::{lemma_push_to_set, lemma_subrange_split, lemma_subrange_push, lemma_no_dup_len_bound};
use crate::state::{StateGraph, StateId, VarMap, lists_set};

verus! {

broadcast use vstd::std_specs::hash::group_hash_axioms;

/// What a breadth-first search leaves behind: the ids in the order they were
/// found, where each layer starts, and for each id found by a transition the
/// index of the id it was found from.
struct BfsRun {
    order: Vec<StateId>,
    parent: Vec<usize>,
    bounds: Vec<usize>,
    visited: HashSet<StateId>,
    traversed: usize,
    depth: Ghost<Seq<nat>>,
}

/// Each id found at depth `d` is first reached after `d` transitions, and one
/// found by a transition was found from an id one layer up.
spec fn depth_facts(m: GraphModel, order: Seq<StateId>, depth: Seq<nat>, parent: Seq<usize>) -> bool {
    &&& depth.len() == order.len()
    &&& parent.len() == order.len()
    &&& forall|i: int|
        0 <= i < order.len() ==> m.within(#[trigger] depth[i]).contains(order[i])
            && !m.before(depth[i]).contains(order[i])
    &&& forall|i: int|
        0 <= i < order.len() && #[trigger] depth[i] > 0 ==> parent[i] < i && depth[parent[i] as int]
            + 1 == depth[i] && m.has_edge(order[parent[i] as int], order[i])
    &&& forall|i: int| 0 <= i < order.len() && #[trigger] depth[i] == 0 ==> parent[i] == i
}

spec fn bfs_run_ok(m: GraphModel, r: BfsRun) -> bool {
    let n = r.order@.len();
    &&& r.bounds@.len() >= 1
    &&& r.bounds@[0] == 0
    &&& r.bounds@.last() == n
    &&& forall|a: int, b: int| 0 <= a < b < r.bounds@.len() ==> r.bounds@[a] < r.bounds@[b]
    &&& forall|j: int|
        0 <= j < r.bounds@.len() ==> r.order@.subrange(0, #[trigger] r.bounds@[j] as int).to_set()
            == m.before(j as nat)
    &&& r.order@.no_duplicates()
    &&& r.visited@ == r.order@.to_set()
    &&& m.reachable_set() == r.order@.to_set()
    &&& depth_facts(m, r.order@, r.depth@, r.parent@)
    &&& r.traversed == m.out_edges(m.reachable_set()).len()
}

/// `s[j + 1]` goes to `s[j]` by a transition.
spec fn back_step(m: GraphModel, s: Seq<StateId>, j: int) -> bool {
    m.has_edge(s[j + 1], s[j])
}

/// Breadth-first search from the initial ids, one layer at a time.
fn bfs_run(g: &StateGraph) -> (r: BfsRun)
    ensures
        bfs_run_ok(g@, r),
{
    let ghost m = g@;
    proof {
        g.lemma_finite();
        m.lemma_candidates_finite();
    }
    let ghost cand = m.candidates();
    let ne = g.num_transitions();
    let init = g.initial_states();
    let mut order: Vec<StateId> = Vec::new();
    let mut parent: Vec<usize> = Vec::new();
    let mut visited: HashSet<StateId> = HashSet::new();
    let mut depth: Ghost<Seq<nat>> = Ghost(Seq::empty());
    let mut i: usize = 0;
    while i < init.len()
        invariant
            lists_set(init@, m.initial),
            i <= init.len(),
            order@ == init@.subrange(0, i as int),
            visited@ == order@.to_set(),
            parent@.len() == i,
            depth@.len() == i,
            forall|j: int| 0 <= j < i ==> depth@[j] == 0,
            forall|j: int| 0 <= j < i ==> parent@[j] == j,
        decreases init.len() - i,
    {
        let v = init[i];
        proof {
            lemma_subrange_push(init@, 0, i as int);
        }
        if !visited.contains(&v) {
            visited.insert(v);
            let at = order.len();
            order.push(v);
            parent.push(at);
            depth = Ghost(depth@.push(0));
            proof {
                lemma_push_to_set(init@.subrange(0, i as int), v);
            }
        }
        i += 1;
    }
    proof {
        assert(order@ =~= init@);
        assert(m.within(0) == m.initial);
        assert forall|x: int| 0 <= x < order@.len() implies m.within(#[trigger] depth@[x]).contains(
            order@[x],
        ) && !m.before(depth@[x]).contains(order@[x]) by {
            assert(init@.to_set().contains(init@[x]));
        }
        assert(order@.subrange(0, 0).to_set() =~= Set::<StateId>::empty());
        assert(m.before(0) =~= Set::<StateId>::empty());
        assert(m.out_edges(m.before(0)) =~= Set::<(StateId, StateId)>::empty());
        m.lemma_within_candidates(0);
        lemma_no_dup_len_bound(order@, cand);
    }
    let mut bounds: Vec<usize> = Vec::new();
    bounds.push(0);
    let mut traversed: usize = 0;
    let mut lo: usize = 0;
    let mut hi: usize = order.len();
    let ghost mut k: nat = 0;
    while lo < hi
        invariant
            m == g@,
            m.edges.finite(),
            m.initial.finite(),
            cand == m.candidates(),
            cand.finite(),
            ne == m.edges.len(),
            bounds@.len() == k + 1,
            bounds@[0] == 0,
            bounds@[k as int] == lo,
            forall|a: int, b: int| 0 <= a < b <= k ==> bounds@[a] < bounds@[b],
            forall|j: int|
                0 <= j <= k ==> order@.subrange(0, #[trigger] bounds@[j] as int).to_set()
                    == m.before(j as nat),
            lo <= hi,
            hi == order@.len(),
            hi <= cand.len(),
            order@.no_duplicates(),
            visited@ == order@.to_set(),
            order@.to_set() == m.within(k),
            depth_facts(m, order@, depth@, parent@),
            forall|x: int| 0 <= x < lo ==> #[trigger] depth@[x] < k,
            forall|x: int| lo <= x < hi ==> #[trigger] depth@[x] == k,
            traversed == m.out_edges(m.before(k)).len(),
        decreases cand.len() - lo,
    {
        bounds.push(hi);
        let ghost o0 = order@;
        proof {
            lemma_subrange_split(o0, 0, lo as int, hi as int);
            assert(o0.subrange(0, hi as int) =~= o0);
            assert(o0.subrange(lo as int, lo as int).to_set() =~= Set::<StateId>::empty());
            assert(m.before(k).union(Set::<StateId>::empty()) =~= m.before(k));
            assert(m.image(Set::<StateId>::empty()) =~= Set::<StateId>::empty());
            assert(m.within(k).union(Set::<StateId>::empty()) =~= m.within(k));
        }
        let mut i: usize = lo;
        while i < hi
            invariant
                m == g@,
                m.edges.finite(),
                m.initial.finite(),
                ne == m.edges.len(),
                lo <= i <= hi,
                hi <= order@.len(),
                o0.len() == hi,
                order@.subrange(0, hi as int) == o0,
                o0.subrange(0, lo as int).to_set() == m.before(k),
                o0.to_set() == m.within(k),
                order@.no_duplicates(),
                visited@ == order@.to_set(),
                order@.to_set() == m.within(k).union(m.image(o0.subrange(lo as int, i as int).to_set())),
                depth_facts(m, order@, depth@, parent@),
                forall|x: int| 0 <= x < lo ==> #[trigger] depth@[x] < k,
                forall|x: int| lo <= x < hi ==> #[trigger] depth@[x] == k,
                forall|x: int| hi <= x < order@.len() ==> #[trigger] depth@[x] == k + 1,
                traversed == m.out_edges(m.before(k).union(o0.subrange(lo as int, i as int).to_set())).len(),
            decreases hi - i,
        {
            let cur = order[i];
            let succs = g.successors(cur);
            let ghost s_done = m.before(k).union(o0.subrange(lo as int, i as int).to_set());
            let ghost base = traversed as int;
            proof {
                assert(cur == o0[i as int]);
                lemma_subrange_push(o0, lo as int, i as int);
                assert(!m.before(k).contains(cur)) by {
                    assert(depth@[i as int] == k);
                }
                m.lemma_out_edges_insert(s_done, cur);
                assert(s_done.insert(cur) == m.before(k).union(o0.subrange(lo as int, i + 1).to_set()));
                m.lemma_out_edges_bound(s_done.insert(cur));
                succs@.unique_seq_to_set();
            }
            let mut j: usize = 0;
            while j < succs.len()
                invariant
                    m == g@,
                    lists_set(succs@, m.successors(cur)),
                    succs@.len() == m.successors(cur).len(),
                    base + succs@.len() <= ne,
                    traversed == base + j,
                    j <= succs@.len(),
                    lo <= i < hi,
                    hi <= order@.len(),
                    cur == o0[i as int],
                    order@.subrange(0, hi as int) == o0,
                    order@.no_duplicates(),
                    visited@ == order@.to_set(),
                    m.within(k).subset_of(order@.to_set()),
                    order@.to_set() == m.within(k).union(m.image(o0.subrange(lo as int, i as int).to_set())).union(
                        succs@.subrange(0, j as int).to_set(),
                    ),
                    depth_facts(m, order@, depth@, parent@),
                    depth@[i as int] == k,
                    forall|x: int| 0 <= x < lo ==> #[trigger] depth@[x] < k,
                    forall|x: int| lo <= x < hi ==> #[trigger] depth@[x] == k,
                    forall|x: int| hi <= x < order@.len() ==> #[trigger] depth@[x] == k + 1,
                decreases succs@.len() - j,
            {
                let s = succs[j];
                traversed += 1;
                proof {
                    lemma_subrange_push(succs@, 0, j as int);
                    assert(succs@.to_set().contains(s));
                    assert(m.has_edge(cur, s));
                }
                if !visited.contains(&s) {
                    let ghost before_push = order@;
                    visited.insert(s);
                    order.push(s);
                    parent.push(i);
                    depth = Ghost(depth@.push((k + 1) as nat));
                    proof {
                        lemma_push_to_set(before_push, s);
                        assert(order@.subrange(0, hi as int) =~= before_push.subrange(0, hi as int));
                        let w = m.within(k);
                        assert(w.contains(cur)) by {
                            assert(o0.to_set().contains(o0[i as int]));
                        }
                        assert(m.image(w).contains(s));
                        assert(m.within((k + 1) as nat).contains(s));
                        assert(!m.before((k + 1) as nat).contains(s));
                        let n1 = order@.len() - 1;
                        assert forall|x: int|
                            0 <= x < order@.len() implies m.within(#[trigger] depth@[x]).contains(
                                order@[x],
                            ) && !m.before(depth@[x]).contains(order@[x]) by {
                            if x < n1 {
                                assert(before_push[x] == order@[x]);
                            }
                        }
                        assert forall|x: int|
                            0 <= x < order@.len() && #[trigger] depth@[x] > 0 implies parent@[x] < x
                                && depth@[parent@[x] as int] + 1 == depth@[x] && m.has_edge(
                                order@[parent@[x] as int],
                                order@[x],
                            ) by {
                            if x < n1 {
                                assert(before_push[x] == order@[x]);
                                assert(before_push[parent@[x] as int] == order@[parent@[x] as int]);
                            } else {
                                assert(order@[i as int] == cur);
                            }
                        }
                        assert forall|x: int| 0 <= x < order@.len() && #[trigger] depth@[x] == 0
                            implies parent@[x] == x by {
                            if x < n1 {
                                assert(before_push[x] == order@[x]);
                            }
                        }
                    }
                } else {
                    proof {
                        assert(order@.to_set().contains(s));
                    }
                }
                proof {
                    let a = m.within(k).union(m.image(o0.subrange(lo as int, i as int).to_set()));
                    assert(order@.to_set() =~= a.union(succs@.subrange(0, j + 1).to_set()));
                }
                j += 1;
            }
            proof {
                assert(succs@.subrange(0, succs@.len() as int) =~= succs@);
                let before_i = o0.subrange(lo as int, i as int).to_set();
                let after_i = o0.subrange(lo as int, i + 1).to_set();
                assert(after_i == before_i.insert(cur));
                assert(m.image(after_i) =~= m.image(before_i).union(m.successors(cur))) by {
                    assert forall|t: StateId| #![auto] m.image(after_i).contains(t) == m.image(before_i).union(
                        m.successors(cur),
                    ).contains(t) by {
                        if m.image(after_i).contains(t) {
                            let v = choose|v: StateId| after_i.contains(v) && #[trigger] m.has_edge(v, t);
                            if v != cur {
                                assert(before_i.contains(v));
                            }
                        }
                        if m.image(before_i).contains(t) {
                            let v = choose|v: StateId| before_i.contains(v) && #[trigger] m.has_edge(v, t);
                            assert(after_i.contains(v));
                        }
                        if m.successors(cur).contains(t) {
                            assert(after_i.contains(cur) && m.has_edge(cur, t));
                        }
                    }
                }
                assert(order@.to_set() =~= m.within(k).union(m.image(after_i)));
            }
            i += 1;
        }
        proof {
            let layer = o0.subrange(lo as int, hi as int).to_set();
            assert(m.before(k).union(layer) == m.within(k));
            m.lemma_image_before(k);
            assert(m.image(m.within(k)) =~= m.image(m.before(k)).union(m.image(layer))) by {
                assert forall|t: StateId| #![auto] m.image(m.within(k)).contains(t) == m.image(m.before(k)).union(
                    m.image(layer),
                ).contains(t) by {
                    if m.image(m.within(k)).contains(t) {
                        let v = choose|v: StateId| m.within(k).contains(v) && #[trigger] m.has_edge(v, t);
                        if m.before(k).contains(v) {
                            assert(m.image(m.before(k)).contains(t));
                        } else {
                            assert(m.image(layer).contains(t));
                        }
                    }
                    if m.image(m.before(k)).contains(t) {
                        let v = choose|v: StateId| m.before(k).contains(v) && #[trigger] m.has_edge(v, t);
                        assert(m.within(k).contains(v));
                    }
                    if m.image(layer).contains(t) {
                        let v = choose|v: StateId| layer.contains(v) && #[trigger] m.has_edge(v, t);
                        assert(m.within(k).contains(v));
                    }
                }
            }
            assert(m.within((k + 1) as nat) == m.within(k).union(m.image(m.within(k))));
            assert(order@.to_set() =~= m.within((k + 1) as nat));
            assert(m.before((k + 1) as nat) == m.within(k));
            assert forall|j: int| 0 <= j <= k + 1 implies order@.subrange(0, #[trigger] bounds@[j] as int).to_set()
                == m.before(j as nat) by {
                if j <= k {
                    assert(bounds@[j] <= lo);
                    assert(order@.subrange(0, bounds@[j] as int) =~= o0.subrange(0, bounds@[j] as int));
                } else {
                    assert(order@.subrange(0, hi as int) == o0);
                }
            }
            m.lemma_within_candidates((k + 1) as nat);
            lemma_no_dup_len_bound(order@, cand);
        }
        lo = hi;
        hi = order.len();
        proof {
            k = k + 1;
        }
    }
    proof {
        assert(order@.subrange(0, lo as int) =~= order@);
        assert(m.before(k) == m.within(k));
        m.lemma_image_before(k);
        m.lemma_closed(k);
    }
    BfsRun { order, parent, bounds, visited, traversed, depth }
}


/// State exploration strategies.
#[derive(Clone, Debug, PartialEq, Eq, Structural)]
pub enum SearchStrategy {
    /// Breadth-first search.
    Bfs,
    /// Depth-first search.
    Dfs,
}

/// Result of state exploration.
#[derive(Debug)]
pub struct ExplorationResult {
    /// All reachable states.
    pub reachable: HashSet<StateId>,
    /// The states in the order they were visited.
    pub visit_order: Vec<StateId>,
    /// The layers of a breadth-first search (empty for depth-first search).
    pub layers: Vec<Vec<StateId>>,
    /// Number of transitions traversed.
    pub transitions_traversed: usize,
}

/// The layers laid end to end.
pub open spec fn flatten(ls: Seq<Seq<StateId>>) -> Seq<StateId>
    decreases ls.len(),
{
    if ls.len() == 0 {
        Seq::empty()
    } else {
        flatten(ls.drop_last()) + ls.last()
    }
}

impl ExplorationResult {
    /// The layers, as sequences.
    pub open spec fn layer_seqs(self) -> Seq<Seq<StateId>> {
        self.layers@.map_values(|l: Vec<StateId>| l@)
    }

    /// What any exploration of `m` gives: the reachable ids, each visited once,
    /// and one traversal of each transition that leaves a reachable id.
    pub open spec fn explores(self, m: GraphModel) -> bool {
        &&& self.reachable@ == m.reachable_set()
        &&& lists_set(self.visit_order@, m.reachable_set())
        &&& self.transitions_traversed == m.out_edges(m.reachable_set()).len()
    }

    /// The layers are the distance classes: layer `k` lists, each once, the ids
    /// at distance `k`; no layer is empty and none is missing; and the visit
    /// order is the layers one after another.
    pub open spec fn layered(self, m: GraphModel) -> bool {
        &&& forall|k: int|
            0 <= k < self.layers@.len() ==> lists_set(#[trigger] self.layers@[k]@, m.layer(k as nat))
                && self.layers@[k]@.len() > 0
        &&& forall|k: nat| k >= self.layers@.len() ==> #[trigger] m.layer(k) == Set::<StateId>::empty()
        &&& self.visit_order@ == flatten(self.layer_seqs())
    }

    /// Whether a state is reachable.
    pub fn is_reachable(&self, id: StateId) -> (b: bool)
        ensures
            b == self.reachable@.contains(id),
    {
        self.reachable.contains(&id)
    }

    /// Number of reachable states.
    pub fn num_reachable(&self) -> (n: usize)
        ensures
            n == self.reachable@.len(),
    {
        self.reachable.len()
    }
}

/// Some transition leaves `v` for an id not in `seen`.
pub open spec fn opens(m: GraphModel, v: StateId, seen: Set<StateId>) -> bool {
    exists|s: StateId| #[trigger] m.has_edge(v, s) && !seen.contains(s)
}

/// The depth-first rule for the `k`-th id of `order`, with `seen` the ids
/// visited before it: it is the target of a transition from the latest of
/// those that still had a transition to an id not seen; when none had, it is
/// an initial id.
pub open spec fn depth_first_at(m: GraphModel, order: Seq<StateId>, k: int) -> bool {
    let seen = order.subrange(0, k).to_set();
    ||| exists|j: int|
        0 <= j < k && #[trigger] opens(m, order[j], seen) && (forall|i: int|
            j < i < k ==> !#[trigger] opens(m, order[i], seen)) && m.has_edge(order[j], order[k])
    ||| (forall|j: int| 0 <= j < k ==> !#[trigger] opens(m, order[j], seen)) && m.initial.contains(order[k])
}

/// Every id of `order` follows the depth-first rule.
pub open spec fn depth_first(m: GraphModel, order: Seq<StateId>) -> bool {
    forall|k: int| 0 <= k < order.len() ==> #[trigger] depth_first_at(m, order, k)
}

/// Visiting one more id keeps the rule for the ids visited before.
proof fn lemma_depth_first_push(m: GraphModel, order: Seq<StateId>, v: StateId)
    requires
        depth_first(m, order),
    ensures
        forall|k: int| 0 <= k < order.len() ==> #[trigger] depth_first_at(m, order.push(v), k),
{
    let o2 = order.push(v);
    assert forall|k: int| 0 <= k < order.len() implies #[trigger] depth_first_at(m, o2, k) by {
        assert(depth_first_at(m, order, k));
        assert(o2.subrange(0, k) =~= order.subrange(0, k));
        let seen = order.subrange(0, k).to_set();
        assert forall|i: int| 0 <= i <= k implies o2[i] == order[i] by {}
        if exists|j: int|
            0 <= j < k && #[trigger] opens(m, order[j], seen) && (forall|i: int|
                j < i < k ==> !#[trigger] opens(m, order[i], seen)) && m.has_edge(order[j], order[k]) {
            let j = choose|j: int|
                0 <= j < k && #[trigger] opens(m, order[j], seen) && (forall|i: int|
                    j < i < k ==> !#[trigger] opens(m, order[i], seen)) && m.has_edge(order[j], order[k]);
            assert(opens(m, o2[j], seen));
            assert forall|i: int| j < i < k implies !#[trigger] opens(m, o2[i], seen) by {
                assert(!opens(m, order[i], seen));
            }
        } else {
            assert forall|j: int| 0 <= j < k implies !#[trigger] opens(m, o2[j], seen) by {
                assert(!opens(m, order[j], seen));
            }
        }
    }
}

/// The next id a depth-first search visits: the top of a stack whose entries
/// are grouped, bottom to top, by the visited id (or -1 for initial ids) whose
/// transitions pushed them, and which holds every id not yet visited that an
/// initial id or a transition from a visited id leads to.
proof fn lemma_depth_first_next(
    m: GraphModel,
    order: Seq<StateId>,
    seen: Set<StateId>,
    stack: Seq<StateId>,
    owner: Seq<int>,
    current: StateId,
)
    requires
        depth_first(m, order),
        seen == order.to_set(),
        stack.len() > 0,
        stack.last() == current,
        !seen.contains(current),
        owner.len() == stack.len(),
        forall|x: int, y: int| 0 <= x < y < owner.len() ==> owner[x] <= owner[y],
        forall|x: int| 0 <= x < owner.len() ==> -1 <= #[trigger] owner[x] < order.len(),
        forall|x: int| 0 <= x < owner.len() && owner[x] >= 0 ==> m.has_edge(order[owner[x]], #[trigger] stack[x]),
        forall|x: int| 0 <= x < owner.len() && owner[x] == -1 ==> m.initial.contains(#[trigger] stack[x]),
        forall|o: int, s: StateId|
            0 <= o < order.len() && #[trigger] m.has_edge(order[o], s) && !seen.contains(s) ==> exists|x: int|
                0 <= x < stack.len() && owner[x] == o && #[trigger] stack[x] == s,
    ensures
        depth_first_at(m, order.push(current), order.len() as int),
{
    let o2 = order.push(current);
    let n = order.len() as int;
    let t = stack.len() - 1;
    let o = owner[t];
    assert(o2.subrange(0, n) =~= order);
    assert forall|i: int| 0 <= i < n implies o2[i] == order[i] by {}
    assert forall|i: int| 0 <= i < n && o < i implies !#[trigger] opens(m, o2[i], seen) by {
        if opens(m, o2[i], seen) {
            let s = choose|s: StateId| #[trigger] m.has_edge(o2[i], s) && !seen.contains(s);
            assert(m.has_edge(order[i], s));
            let x = choose|x: int| 0 <= x < stack.len() && owner[x] == i && #[trigger] stack[x] == s;
            if x < t {
                assert(owner[x] <= owner[t]);
            }
        }
    }
    if o >= 0 {
        assert(m.has_edge(order[o], current));
        assert(opens(m, o2[o], seen));
        assert(m.has_edge(o2[o], o2[n]));
    } else {
        assert(m.initial.contains(stack[t]));
    }
}

/// Explores the state space of a model.
#[derive(Clone, Debug)]
pub struct StateExplorer {
    graph: StateGraph,
}

impl View for StateExplorer {
    type V = GraphModel;

    closed spec fn view(&self) -> GraphModel {
        self.graph@
    }
}

impl StateExplorer {
    /// An explorer for the given state graph.
    pub fn new(graph: StateGraph) -> (e: StateExplorer)
        ensures
            e@ == graph@,
    {
        StateExplorer { graph }
    }

    /// The model's transition and initial sets are finite.
    pub proof fn lemma_finite(&self)
        ensures
            self@.edges.finite(),
            self@.initial.finite(),
    {
        self.graph.lemma_finite();
    }

    /// The underlying graph.
    pub fn graph(&self) -> (g: &StateGraph)
        ensures
            g@ == self@,
    {
        &self.graph
    }

    /// Explores all states reachable from the initial states breadth-first.
    pub fn explore_bfs(&self) -> (r: ExplorationResult)
        ensures
            r.explores(self@),
            r.layered(self@),
    {
        self.bfs()
    }

    /// Explores all states reachable from the initial states depth-first.
    pub fn explore_dfs(&self) -> (r: ExplorationResult)
        ensures
            r.explores(self@),
            r.layers@.len() == 0,
            depth_first(self@, r.visit_order@),
    {
        self.dfs()
    }

    /// Explores with the given strategy.
    pub fn explore(&self, strategy: SearchStrategy) -> (r: ExplorationResult)
        ensures
            r.explores(self@),
            strategy == SearchStrategy::Bfs ==> r.layered(self@),
            strategy == SearchStrategy::Dfs ==> r.layers@.len() == 0 && depth_first(self@, r.visit_order@),
    {
        match strategy {
            SearchStrategy::Bfs => self.bfs(),
            SearchStrategy::Dfs => self.dfs(),
        }
    }

    fn bfs(&self) -> (r: ExplorationResult)
        ensures
            r.explores(self@),
            r.layered(self@),
    {
        let ghost m = self@;
        let run = bfs_run(&self.graph);
        let BfsRun { order, parent, bounds, visited, traversed, depth } = run;
        let nl = bounds.len() - 1;
        let mut layers: Vec<Vec<StateId>> = Vec::new();
        let mut j: usize = 0;
        while j < nl
            invariant
                nl + 1 == bounds@.len(),
                bounds@[0] == 0,
                bounds@[nl as int] == order@.len(),
                forall|a: int, b: int| 0 <= a < b < bounds@.len() ==> bounds@[a] < bounds@[b],
                forall|x: int|
                    0 <= x < bounds@.len() ==> order@.subrange(0, #[trigger] bounds@[x] as int).to_set()
                        == m.before(x as nat),
                order@.no_duplicates(),
                j <= nl,
                layers@.len() == j,
                forall|x: int|
                    0 <= x < j ==> lists_set(#[trigger] layers@[x]@, m.layer(x as nat))
                        && layers@[x]@.len() > 0,
                flatten(layers@.map_values(|l: Vec<StateId>| l@)) == order@.subrange(
                    0,
                    bounds@[j as int] as int,
                ),
            decreases nl - j,
        {
            let a = bounds[j];
            let b = bounds[j + 1];
            let mut layer: Vec<StateId> = Vec::new();
            let mut x = a;
            while x < b
                invariant
                    a <= x <= b <= order@.len(),
                    layer@ == order@.subrange(a as int, x as int),
                decreases b - x,
            {
                layer.push(order[x]);
                x += 1;
                assert(layer@ =~= order@.subrange(a as int, x as int));
            }
            proof {
                let o = order@;
                lemma_subrange_split(o, 0, a as int, b as int);
                assert(o.subrange(0, b as int).to_set() == m.before((j + 1) as nat));
                assert(m.before((j + 1) as nat) == m.within(j as nat));
                m.lemma_layer(j as nat);
                assert(layer@.to_set() =~= m.layer(j as nat));
                assert(layer@.no_duplicates()) by {
                    assert forall|p: int, q: int| 0 <= p < q < layer@.len() implies layer@[p] != layer@[q] by {
                        assert(layer@[p] == o[a + p] && layer@[q] == o[a + q]);
                    }
                }
                assert(o.subrange(0, b as int) =~= o.subrange(0, a as int) + layer@);
            }
            let ghost prev = layers@;
            layers.push(layer);
            proof {
                let ls = layers@.map_values(|l: Vec<StateId>| l@);
                assert(ls.drop_last() =~= prev.map_values(|l: Vec<StateId>| l@));
            }
            j += 1;
        }
        let r = ExplorationResult {
            reachable: visited,
            visit_order: order,
            layers,
            transitions_traversed: traversed,
        };
        proof {
            assert(r.visit_order@.subrange(0, r.visit_order@.len() as int) =~= r.visit_order@);
            assert forall|k: nat| k >= r.layers@.len() implies #[trigger] m.layer(k) == Set::<StateId>::empty() by {
                m.lemma_layer(k);
                assert forall|v: StateId| !m.layer(k).contains(v) by {
                    if m.within(k).contains(v) {
                        let p = m.lemma_within_path(k, v);
                        assert(m.is_path(p) && p.last() == v);
                        assert(m.reachable_set().contains(v));
                        assert(order@.subrange(0, bounds@[nl as int] as int) =~= order@);
                        assert(m.before(nl as nat).contains(v));
                        if nl > 0 {
                            m.lemma_within_mono((nl - 1) as nat, (k - 1) as nat);
                        }
                        assert(m.before(k).contains(v));
                    }
                }
                assert(m.layer(k) =~= Set::<StateId>::empty());
            }
        }
        r
    }

    fn dfs(&self) -> (r: ExplorationResult)
        ensures
            r.explores(self@),
            r.layers@.len() == 0,
            depth_first(self@, r.visit_order@),
    {
        let ghost m = self@;
        proof {
            self.graph.lemma_finite();
            m.lemma_candidates_finite();
            m.lemma_reachable_candidates();
        }
        let ghost cand = m.candidates();
        let ghost reach = m.reachable_set();
        let ne = self.graph.num_transitions();
        let init = self.graph.initial_states();
        let mut stack: Vec<StateId> = Vec::new();
        let mut i: usize = init.len();
        while i > 0
            invariant
                lists_set(init@, m.initial),
                i <= init.len(),
                stack@.len() == init.len() - i,
                forall|x: int| 0 <= x < stack@.len() ==> stack@[x] == init@[init.len() - 1 - x],
            decreases i,
        {
            i -= 1;
            stack.push(init[i]);
        }
        // For each entry of the stack, the index in the visit order of the id
        // whose successors pushed it, or -1 for an initial id.
        let ghost mut owner: Seq<int> = Seq::new(stack@.len(), |x: int| -1int);
        proof {
            assert forall|v: StateId| m.initial.contains(v) implies stack@.contains(v) by {
                assert(init@.to_set().contains(v));
                let x = choose|x: int| 0 <= x < init@.len() && init@[x] == v;
                assert(stack@[init.len() - 1 - x] == v);
            }
            assert forall|v: StateId| m.initial.contains(v) implies exists|x: int|
                0 <= x < stack@.len() && owner[x] == -1 && #[trigger] stack@[x] == v by {
                let x = choose|x: int| 0 <= x < stack@.len() && stack@[x] == v;
                assert(owner[x] == -1);
            }
            assert forall|x: int| 0 <= x < stack@.len() implies m.initial.contains(#[trigger] stack@[x]) by {
                assert(init@.to_set().contains(init@[init.len() - 1 - x]));
            }
            assert forall|v: StateId| stack@.contains(v) implies reach.contains(v) by {
                let x = choose|x: int| 0 <= x < stack@.len() && stack@[x] == v;
                assert(init@.to_set().contains(v));
                m.lemma_reachable_step(v, v);
            }
            assert(m.out_edges(Set::<StateId>::empty()) =~= Set::<(StateId, StateId)>::empty());
        }
        let mut visited: HashSet<StateId> = HashSet::new();
        let mut visit_order: Vec<StateId> = Vec::new();
        let mut traversed: usize = 0;
        proof {
            assert(visit_order@.to_set() =~= Set::<StateId>::empty());
        }
        while stack.len() > 0
            invariant
                m == self@,
                m.edges.finite(),
                cand.finite(),
                reach == m.reachable_set(),
                reach.subset_of(cand),
                ne == m.edges.len(),
                visit_order@.no_duplicates(),
                visited@ == visit_order@.to_set(),
                visited@.subset_of(reach),
                forall|v: StateId| stack@.contains(v) ==> reach.contains(v),
                forall|v: StateId| m.initial.contains(v) ==> visited@.contains(v) || stack@.contains(v),
                forall|v: StateId, t: StateId|
                    visited@.contains(v) && #[trigger] m.has_edge(v, t) ==> visited@.contains(t)
                        || stack@.contains(t),
                traversed == m.out_edges(visited@).len(),
                visit_order@.len() <= cand.len(),
                owner.len() == stack@.len(),
                forall|x: int, y: int| 0 <= x < y < owner.len() ==> owner[x] <= owner[y],
                forall|x: int| 0 <= x < owner.len() ==> -1 <= #[trigger] owner[x] < visit_order@.len(),
                forall|x: int|
                    0 <= x < owner.len() && owner[x] >= 0 ==> m.has_edge(
                        visit_order@[owner[x]],
                        #[trigger] stack@[x],
                    ),
                forall|x: int| 0 <= x < owner.len() && owner[x] == -1 ==> m.initial.contains(#[trigger] stack@[x]),
                forall|o: int, s: StateId|
                    0 <= o < visit_order@.len() && #[trigger] m.has_edge(visit_order@[o], s) && !visited@.contains(s)
                        ==> exists|x: int| 0 <= x < stack@.len() && owner[x] == o && #[trigger] stack@[x] == s,
                forall|v: StateId|
                    m.initial.contains(v) && !visited@.contains(v) ==> exists|x: int|
                        0 <= x < stack@.len() && owner[x] == -1 && #[trigger] stack@[x] == v,
                depth_first(m, visit_order@),
            decreases cand.len() - visit_order@.len(), stack@.len(),
        {
            let ghost st0 = stack@;
            let ghost ow0 = owner;
            let current = stack.pop().unwrap();
            proof {
                owner = owner.drop_last();
                assert(st0 == stack@.push(current));
                assert forall|v: StateId| st0.contains(v) implies stack@.contains(v) || v == current by {
                    let x = choose|x: int| 0 <= x < st0.len() && st0[x] == v;
                    if x < stack@.len() {
                        assert(stack@[x] == v);
                    }
                }
                assert(st0[st0.len() - 1] == current);
            }
            if visited.contains(&current) {
                proof {
                    assert forall|v: StateId| stack@.contains(v) implies reach.contains(v) by {
                        let x = choose|x: int| 0 <= x < stack@.len() && stack@[x] == v;
                        assert(st0[x] == v);
                    }
                    assert forall|o: int, s: StateId|
                        0 <= o < visit_order@.len() && #[trigger] m.has_edge(visit_order@[o], s) && !visited@.contains(s)
                            implies exists|x: int| 0 <= x < stack@.len() && owner[x] == o && #[trigger] stack@[x] == s by {
                        let x = choose|x: int| 0 <= x < st0.len() && ow0[x] == o && #[trigger] st0[x] == s;
                        assert(x != st0.len() - 1);
                        assert(stack@[x] == s && owner[x] == o);
                    }
                    assert forall|v: StateId| m.initial.contains(v) && !visited@.contains(v) implies exists|x: int|
                        0 <= x < stack@.len() && owner[x] == -1 && #[trigger] stack@[x] == v by {
                        let x = choose|x: int| 0 <= x < st0.len() && ow0[x] == -1 && #[trigger] st0[x] == v;
                        assert(x != st0.len() - 1);
                        assert(stack@[x] == v && owner[x] == -1);
                    }
                }
            } else {
                let ghost vis0 = visited@;
                let ghost ord0 = visit_order@;
                let ghost n = ord0.len() as int;
                proof {
                    lemma_depth_first_next(m, ord0, vis0, st0, ow0, current);
                }
                visited.insert(current);
                visit_order.push(current);
                let succs = self.graph.successors(current);
                proof {
                    lemma_depth_first_push(m, ord0, current);
                    lemma_push_to_set(ord0, current);
                    assert(reach.contains(current));
                    m.lemma_out_edges_insert(vis0, current);
                    m.lemma_out_edges_bound(vis0.insert(current));
                    succs@.unique_seq_to_set();
                    assert(visit_order@.no_duplicates()) by {
                        if ord0.contains(current) {
                            assert(vis0.contains(current));
                        }
                    }
                    lemma_no_dup_len_bound(visit_order@, cand);
                    assert forall|v: StateId| stack@.contains(v) implies reach.contains(v) by {
                        let x = choose|x: int| 0 <= x < stack@.len() && stack@[x] == v;
                        assert(st0[x] == v);
                    }
                }
                let ghost base = traversed as int;
                let ghost stk1 = stack@;
                let ghost ow1 = owner;
                let mut j: usize = succs.len();
                while j > 0
                    invariant
                        m == self@,
                        reach == m.reachable_set(),
                        reach.contains(current),
                        lists_set(succs@, m.successors(current)),
                        j <= succs@.len(),
                        base + succs@.len() <= ne,
                        traversed == base + (succs@.len() - j),
                        visited@.contains(current),
                        visit_order@ == ord0.push(current),
                        forall|v: StateId| stk1.contains(v) ==> stack@.contains(v),
                        forall|v: StateId| stack@.contains(v) ==> reach.contains(v),
                        forall|x: int|
                            j <= x < succs@.len() ==> visited@.contains(#[trigger] succs@[x])
                                || exists|y: int| 0 <= y < stack@.len() && owner[y] == n && #[trigger] stack@[y] == succs@[x],
                        owner.len() == stack@.len(),
                        stk1.len() <= stack@.len(),
                        ow1.len() == stk1.len(),
                        forall|x: int| 0 <= x < stk1.len() ==> stack@[x] == stk1[x] && owner[x] == ow1[x],
                        forall|x: int|
                            #![trigger stack@[x]]
                            #![trigger owner[x]]
                            stk1.len() <= x < stack@.len() ==> owner[x] == n && m.has_edge(current, stack@[x]),
                    decreases j,
                {
                    j -= 1;
                    let s = succs[j];
                    traversed += 1;
                    proof {
                        assert(succs@.to_set().contains(s));
                        assert(m.has_edge(current, s));
                        m.lemma_reachable_step(current, s);
                    }
                    if !visited.contains(&s) {
                        let ghost st2 = stack@;
                        let ghost ow2 = owner;
                        stack.push(s);
                        proof {
                            owner = owner.push(n);
                            lemma_push_to_set(st2, s);
                            assert forall|v: StateId| st2.contains(v) implies stack@.contains(v) by {
                                let x = choose|x: int| 0 <= x < st2.len() && st2[x] == v;
                                assert(stack@[x] == v);
                            }
                            assert(stack@.contains(s)) by {
                                assert(stack@.to_set().contains(s));
                            }
                            assert forall|v: StateId| stack@.contains(v) implies reach.contains(v) by {
                                assert(stack@.to_set().contains(v));
                                if v != s {
                                    assert(st2.to_set().contains(v));
                                }
                            }
                            assert(owner[st2.len() as int] == n && stack@[st2.len() as int] == s);
                            assert forall|x: int|
                                #![trigger stack@[x]]
                                #![trigger owner[x]]
                                stk1.len() <= x < stack@.len() implies owner[x] == n && m.has_edge(current, stack@[x]) by {
                                if x < st2.len() {
                                    assert(owner[x] == ow2[x] && stack@[x] == st2[x]);
                                }
                            }
                            assert forall|x: int|
                                j <= x < succs@.len() implies visited@.contains(#[trigger] succs@[x])
                                    || exists|y: int| 0 <= y < stack@.len() && owner[y] == n && #[trigger] stack@[y] == succs@[x] by {
                                if x > j && !visited@.contains(succs@[x]) {
                                    let y = choose|y: int| 0 <= y < st2.len() && ow2[y] == n && #[trigger] st2[y] == succs@[x];
                                    assert(stack@[y] == st2[y] && owner[y] == ow2[y]);
                                }
                            }
                        }
                    }
                }
                proof {
                    assert forall|v: StateId, t: StateId|
                        visited@.contains(v) && #[trigger] m.has_edge(v, t) implies visited@.contains(t)
                            || stack@.contains(t) by {
                        if v == current {
                            assert(m.successors(current).contains(t));
                            assert(succs@.to_set().contains(t));
                            let x = choose|x: int| 0 <= x < succs@.len() && succs@[x] == t;
                            if !visited@.contains(t) {
                                let y = choose|y: int| 0 <= y < stack@.len() && owner[y] == n && #[trigger] stack@[y] == succs@[x];
                            }
                        } else {
                            assert(vis0.contains(v));
                            if st0.contains(t) && t != current {
                                assert(stk1.contains(t));
                            }
                        }
                    }
                    assert forall|v: StateId| m.initial.contains(v) implies visited@.contains(v) || stack@.contains(v) by {
                        if st0.contains(v) && v != current {
                            assert(stk1.contains(v));
                        }
                    }
                    assert forall|x: int, y: int| 0 <= x < y < owner.len() implies owner[x] <= owner[y] by {
                        if y < stk1.len() {
                            assert(owner[x] == ow1[x] && owner[y] == ow1[y]);
                            assert(ow1[x] == ow0[x] && ow1[y] == ow0[y]);
                            assert(ow0[x] <= ow0[y]);
                        } else if x < stk1.len() {
                            assert(owner[x] == ow1[x]);
                            assert(ow1[x] == ow0[x]);
                            assert(ow0[x] < ord0.len());
                            assert(owner[y] == n);
                        } else {
                            assert(owner[x] == n && owner[y] == n);
                        }
                    }
                    assert forall|x: int| 0 <= x < owner.len() implies -1 <= #[trigger] owner[x] < visit_order@.len() by {
                        if x < stk1.len() {
                            assert(owner[x] == ow1[x] && ow1[x] == ow0[x]);
                            assert(-1 <= ow0[x] < ord0.len());
                        } else {
                            assert(owner[x] == n);
                        }
                    }
                    assert forall|x: int|
                        0 <= x < owner.len() && owner[x] >= 0 implies m.has_edge(
                            visit_order@[owner[x]],
                            #[trigger] stack@[x],
                        ) by {
                        if x < stk1.len() {
                            assert(owner[x] == ow0[x] && stack@[x] == st0[x]);
                            assert(m.has_edge(ord0[ow0[x]], st0[x]));
                            assert(visit_order@[ow0[x]] == ord0[ow0[x]]);
                        } else {
                            assert(visit_order@[n] == current);
                        }
                    }
                    assert forall|x: int| 0 <= x < owner.len() && owner[x] == -1 implies m.initial.contains(#[trigger] stack@[x]) by {
                        if x < stk1.len() {
                            assert(owner[x] == ow0[x] && stack@[x] == st0[x]);
                        }
                    }
                    assert forall|o: int, s: StateId|
                        0 <= o < visit_order@.len() && #[trigger] m.has_edge(visit_order@[o], s) && !visited@.contains(s)
                            implies exists|x: int| 0 <= x < stack@.len() && owner[x] == o && #[trigger] stack@[x] == s by {
                        if o < n {
                            assert(visit_order@[o] == ord0[o]);
                            assert(!vis0.contains(s));
                            let x = choose|x: int| 0 <= x < st0.len() && ow0[x] == o && #[trigger] st0[x] == s;
                            assert(x != st0.len() - 1);
                            assert(stack@[x] == s && owner[x] == o);
                        } else {
                            assert(visit_order@[o] == current);
                            assert(m.successors(current).contains(s));
                            assert(succs@.to_set().contains(s));
                            let k = choose|k: int| 0 <= k < succs@.len() && succs@[k] == s;
                            let y = choose|y: int| 0 <= y < stack@.len() && owner[y] == n && #[trigger] stack@[y] == succs@[k];
                        }
                    }
                    assert forall|v: StateId| m.initial.contains(v) && !visited@.contains(v) implies exists|x: int|
                        0 <= x < stack@.len() && owner[x] == -1 && #[trigger] stack@[x] == v by {
                        let x = choose|x: int| 0 <= x < st0.len() && ow0[x] == -1 && #[trigger] st0[x] == v;
                        assert(x != st0.len() - 1);
                        assert(stack@[x] == v && owner[x] == -1);
                    }
                }
            }
        }
        proof {
            assert forall|v: StateId| m.initial.contains(v) implies visited@.contains(v) by {
                if stack@.contains(v) {
                    let x = choose|x: int| 0 <= x < stack@.len() && stack@[x] == v;
                }
            }
            assert forall|v: StateId, t: StateId| visited@.contains(v) && #[trigger] m.has_edge(v, t) implies visited@.contains(t) by {
                if stack@.contains(t) {
                    let x = choose|x: int| 0 <= x < stack@.len() && stack@[x] == t;
                }
            }
            m.lemma_closed_superset(visited@);
            assert(visited@ =~= reach);
        }
        ExplorationResult {
            reachable: visited,
            visit_order,
            layers: Vec::new(),
            transitions_traversed: traversed,
        }
    }

    /// A shortest path from an initial state to `target`, if `target` is reachable.
    pub fn find_path_to(&self, target: StateId) -> (r: Option<Vec<StateId>>)
        ensures
            r is Some <==> self@.reachable(target),
            r matches Some(p) ==> self@.is_shortest_path(p@) && p@.last() == target,
    {
        let ghost m = self@;
        let run = bfs_run(&self.graph);
        if !run.visited.contains(&target) {
            proof {
                assert(!m.reachable_set().contains(target));
            }
            return None;
        }
        let ghost depth = run.depth@;
        let n = run.order.len();
        proof {
            assert(run.order@.to_set().contains(target));
        }
        let mut t: usize = 0;
        while run.order[t] != target
            invariant
                n == run.order@.len(),
                t < n,
                run.order@.contains(target),
                forall|x: int| 0 <= x < t ==> run.order@[x] != target,
            decreases n - t,
        {
            t += 1;
            proof {
                if t == n {
                    let x = choose|x: int| 0 <= x < n && run.order@[x] == target;
                    assert(false);
                }
            }
        }
        let mut rev: Vec<StateId> = Vec::new();
        rev.push(target);
        let mut idx = t;
        while run.parent[idx] != idx
            invariant
                n == run.order@.len(),
                depth_facts(m, run.order@, depth, run.parent@),
                idx < n,
                t < n,
                run.order@[t as int] == target,
                rev@.len() >= 1,
                rev@[0] == target,
                rev@.last() == run.order@[idx as int],
                rev@.len() + depth[idx as int] == depth[t as int] + 1,
                forall|j: int| 0 <= j < rev@.len() - 1 ==> #[trigger] back_step(m, rev@, j),
            decreases idx,
        {
            proof {
                if depth[idx as int] == 0 {
                    assert(run.parent@[idx as int] == idx);
                }
            }
            let p = run.parent[idx];
            let ghost r0 = rev@;
            rev.push(run.order[p]);
            proof {
                assert forall|j: int| 0 <= j < rev@.len() - 1 implies #[trigger] back_step(m, rev@, j) by {
                    if j < r0.len() - 1 {
                        assert(back_step(m, r0, j));
                        assert(rev@[j] == r0[j] && rev@[j + 1] == r0[j + 1]);
                    }
                }
            }
            idx = p;
        }
        proof {
            if depth[idx as int] > 0 {
                assert(run.parent@[idx as int] < idx);
            }
            assert(m.within(0).contains(run.order@[idx as int]));
        }
        let len = rev.len();
        let mut path: Vec<StateId> = Vec::new();
        let mut j: usize = len;
        while j > 0
            invariant
                len == rev@.len(),
                j <= len,
                path@.len() == len - j,
                forall|x: int| 0 <= x < path@.len() ==> path@[x] == rev@[len - 1 - x],
            decreases j,
        {
            j -= 1;
            path.push(rev[j]);
        }
        proof {
            let p = path@;
            assert(p[0] == rev@.last());
            assert(m.initial.contains(p[0]));
            assert forall|x: int| 0 <= x < p.len() - 1 implies #[trigger] m.is_step(p, x) by {
                let j = len - 2 - x;
                assert(back_step(m, rev@, j));
            }
            assert(m.is_path(p));
            assert(p.last() == target);
            assert(!m.before(depth[t as int]).contains(target));
            m.lemma_shortest(p, depth[t as int]);
        }
        Some(path)
    }

    /// The ids of the states whose variables satisfy `predicate`, increasing.
    pub fn find_states<F: Fn(&VarMap) -> bool>(&self, predicate: F) -> (r: Vec<StateId>)
        requires
            forall|vars: &VarMap| predicate.requires((vars,)),
        ensures
            forall|a: int, b: int| 0 <= a < b < r@.len() ==> r@[a] < r@[b],
            forall|x: int| 0 <= x < r@.len() ==> self@.has_state(#[trigger] r@[x]),
            forall|x: int|
                0 <= x < r@.len() ==> predicate.ensures((&self@.states[#[trigger] r@[x] as int].vars,), true),
            forall|id: StateId|
                self@.has_state(id) && !r@.contains(id) ==> predicate.ensures(
                    (&self@.states[id as int].vars,),
                    false,
                ),
    {
        let states = self.graph.states();
        let ids = self.graph.state_ids();
        let mut r: Vec<StateId> = Vec::new();
        let mut i: usize = 0;
        while i < states.len()
            invariant
                states@.len() == self@.states.len(),
                ids@.len() == self@.states.len(),
                forall|x: int| 0 <= x < ids@.len() ==> ids@[x] == x,
                forall|x: int| 0 <= x < states@.len() ==> *(#[trigger] states@[x]) == self@.states[x],
                forall|vars: &VarMap| predicate.requires((vars,)),
                i <= states@.len(),
                forall|a: int, b: int| 0 <= a < b < r@.len() ==> r@[a] < r@[b],
                forall|x: int| 0 <= x < r@.len() ==> r@[x] < i,
                forall|x: int|
                    0 <= x < r@.len() ==> predicate.ensures((&self@.states[#[trigger] r@[x] as int].vars,), true),
                forall|id: StateId|
                    id < i && !r@.contains(id) ==> predicate.ensures(
                        (&self@.states[id as int].vars,),
                        false,
                    ),
            decreases states@.len() - i,
        {
            let st = states[i];
            let id = ids[i];
            let ghost r0 = r@;
            let b = predicate(&st.vars);
            proof {
                assert(*st == self@.states[i as int]);
                assert(id == i);
            }
            if b {
                r.push(id);
            }
            proof {
                assert forall|id: StateId| id < i + 1 && !r@.contains(id) implies predicate.ensures(
                    (&self@.states[id as int].vars,),
                    false,
                ) by {
                    if id < i {
                        if r0.contains(id) {
                            let x = choose|x: int| 0 <= x < r0.len() && r0[x] == id;
                            assert(r@[x] == id);
                        }
                    } else {
                        if r@.len() > r0.len() {
                            assert(r@[r0.len() as int] == id);
                        }
                    }
                }
            }
            i += 1;
        }
        r
    }

    /// The ids of the dead states (states with no outgoing transition), increasing.
    pub fn dead_states(&self) -> (r: Vec<StateId>)
        ensures
            forall|a: int, b: int| 0 <= a < b < r@.len() ==> r@[a] < r@[b],
            forall|id: StateId| r@.contains(id) <==> self@.is_dead(id),
    {
        let ids = self.graph.state_ids();
        let mut r: Vec<StateId> = Vec::new();
        let mut i: usize = 0;
        while i < ids.len()
            invariant
                ids@.len() == self@.states.len(),
                forall|x: int| 0 <= x < ids@.len() ==> ids@[x] == x,
                i <= ids@.len(),
                forall|a: int, b: int| 0 <= a < b < r@.len() ==> r@[a] < r@[b],
                forall|x: int| 0 <= x < r@.len() ==> r@[x] < i,
                forall|id: StateId| r@.contains(id) <==> id < i && self@.is_dead(id),
            decreases ids@.len() - i,
        {
            let id = ids[i];
            let succs = self.graph.successors(id);
            let ghost r0 = r@;
            if succs.len() == 0 {
                r.push(id);
            }
            proof {
                assert(succs@.to_set() == self@.successors(id));
                if succs@.len() == 0 {
                    assert forall|t: StateId| !#[trigger] self@.has_edge(id, t) by {
                        if self@.has_edge(id, t) {
                            assert(self@.successors(id).contains(t));
                        }
                    }
                } else {
                    assert(succs@.to_set().contains(succs@[0]));
                    assert(self@.has_edge(id, succs@[0]));
                }
                assert forall|v: StateId| r@.contains(v) <==> v < i + 1 && self@.is_dead(v) by {
                    if r@.contains(v) {
                        let x = choose|x: int| 0 <= x < r@.len() && r@[x] == v;
                        if x < r0.len() {
                            assert(r0.contains(v));
                        }
                    }
                    if v < i + 1 && self@.is_dead(v) {
                        if v < i {
                            let x = choose|x: int| 0 <= x < r0.len() && r0[x] == v;
                            assert(r@[x] == v);
                        } else {
                            assert(r@[r0.len() as int] == v);
                        }
                    }
                }
            }
            i += 1;
        }
        r
    }
}

} // verus!
