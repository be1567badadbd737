//! The model checker: exploration combined with property verification.

use std::collections::HashSet;
use vstd::prelude::*;
use crate::explorer::StateExplorer;
use crate::laws::{law_first_layer_is_initial, law_layer_predecessor};
use crate::model::GraphModel;
use crate::property::{eval_cond, eval_condition, Property, PropertyResult};
use crate::seqs::{lemma_no_dup_len_bound, lemma_push_to_set};
use crate::state::{contains_id, copy_ids, lists_set, StateGraph, StateId, VarMap};

verus! {

broadcast use vstd::std_specs::hash::group_hash_axioms;

/// The state `v` exists and satisfies the condition.
pub open spec fn holds_at(m: GraphModel, cond: Seq<char>, v: StateId) -> bool {
    m.has_state(v) && eval_cond(cond, m.states[v as int].vars@)
}

/// The state `v` exists and its variable `name` is set to `true`.
pub open spec fn var_true(m: GraphModel, name: Seq<char>, v: StateId) -> bool {
    m.has_state(v) && m.states[v as int].vars@.contains_key(name) && m.states[v as int].vars@[name]
}

/// What a reachability check of `target` answers: satisfied exactly when
/// `target` is reachable, else violated with an empty trace.
pub open spec fn reachability_answer(m: GraphModel, target: StateId, r: PropertyResult) -> bool {
    match r {
        PropertyResult::Satisfied => m.reachable(target),
        PropertyResult::Violated(t) => !m.reachable(target) && t@.len() == 0,
    }
}

/// The state `v` exists, fails the condition and lies at distance `d`.
pub open spec fn violates_at(m: GraphModel, cond: Seq<char>, v: StateId, d: nat) -> bool {
    m.at_distance(v, d) && m.has_state(v) && !holds_at(m, cond, v)
}

/// Some state fails the condition at distance `d`, and none at a smaller one.
pub open spec fn nearest_distance(m: GraphModel, cond: Seq<char>, d: nat) -> bool {
    &&& exists|v: StateId| #[trigger] violates_at(m, cond, v, d)
    &&& forall|w: StateId, e: nat| e < d ==> !#[trigger] violates_at(m, cond, w, e)
}

/// The distance of the nearest reachable state that fails the condition.
pub open spec fn violation_distance(m: GraphModel, cond: Seq<char>) -> nat {
    choose|d: nat| #[trigger] nearest_distance(m, cond, d)
}

/// The smallest id among the nearest reachable states that fail the condition.
pub open spec fn nearest_violator(m: GraphModel, cond: Seq<char>) -> StateId {
    let d = violation_distance(m, cond);
    choose|v: StateId|
        #[trigger] violates_at(m, cond, v, d) && forall|w: StateId| #[trigger] violates_at(m, cond, w, d) ==> v <= w
}

/// What an invariant check answers: satisfied exactly when every reachable
/// existing state satisfies the condition; a violation carries a shortest path
/// to a reachable state that does not, no path to such a state is shorter, and
/// the trace is the canonical shortest path to the smallest id among the
/// nearest violating states, so that the answer is fixed by the model and the
/// condition.
pub open spec fn invariant_answer(m: GraphModel, cond: Seq<char>, r: PropertyResult) -> bool {
    match r {
        PropertyResult::Satisfied => forall|v: StateId|
            #[trigger] m.reachable(v) && m.has_state(v) ==> holds_at(m, cond, v),
        PropertyResult::Violated(t) => {
            &&& m.is_shortest_path(t@)
            &&& m.has_state(t@.last())
            &&& !holds_at(m, cond, t@.last())
            &&& forall|q: Seq<StateId>|
                #[trigger] m.is_path(q) && m.has_state(q.last()) && !holds_at(m, cond, q.last())
                    ==> t@.len() <= q.len()
            &&& t@ == m.canonical_path(nearest_violator(m, cond), violation_distance(m, cond))
        },
    }
}

/// What checking that some state with variable `target` set to `true` can be
/// reached answers: satisfied exactly when some reachable state has it set,
/// else violated with an empty trace.
pub open spec fn target_answer(m: GraphModel, target: Seq<char>, r: PropertyResult) -> bool {
    match r {
        PropertyResult::Satisfied => exists|id: StateId| #[trigger] var_true(m, target, id) && m.reachable(id),
        PropertyResult::Violated(t) => t@.len() == 0 && forall|id: StateId|
            #[trigger] var_true(m, target, id) ==> !m.reachable(id),
    }
}

/// No state of `t` satisfies the condition.
pub open spec fn avoids(m: GraphModel, cond: Seq<char>, t: Seq<StateId>) -> bool {
    forall|i: int| 0 <= i < t.len() ==> !holds_at(m, cond, #[trigger] t[i])
}

/// No transition leaves `v`.
pub open spec fn ends_dead(m: GraphModel, v: StateId) -> bool {
    forall|s: StateId| !#[trigger] m.has_edge(v, s)
}

/// The last id of `t` has a transition back to an id of `t`.
pub open spec fn loops_back(m: GraphModel, t: Seq<StateId>) -> bool {
    exists|j: int| 0 <= j < t.len() && #[trigger] m.has_edge(t.last(), t[j])
}

/// A path on which the condition never holds and need never hold: it ends at
/// an id that no transition leaves, or its last id has a transition back to
/// one of its ids, so that it can be followed round forever.
pub open spec fn is_liveness_counterexample(m: GraphModel, cond: Seq<char>, t: Seq<StateId>) -> bool {
    &&& m.is_path(t)
    &&& avoids(m, cond, t)
    &&& ends_dead(m, t.last()) || loops_back(m, t)
}

/// What a liveness check answers: satisfied exactly when the condition
/// eventually holds on every path, that is, when no path is a counterexample;
/// a violation carries the first counterexample in the order of paths, so
/// that the answer is fixed by the model and the condition.
pub open spec fn liveness_answer(m: GraphModel, cond: Seq<char>, r: PropertyResult) -> bool {
    match r {
        PropertyResult::Satisfied => forall|t: Seq<StateId>| !#[trigger] is_liveness_counterexample(m, cond, t),
        PropertyResult::Violated(t) => is_liveness_counterexample(m, cond, t@) && first_counterexample(m, cond, t@),
    }
}

/// What the statistics of `m` are: its number of states, of reachable
/// states, of transitions out of reachable states, and of distance layers.
pub open spec fn stats_answer(m: GraphModel, s: ModelCheckStats) -> bool {
    &&& s.total_states == m.states.len()
    &&& s.reachable_states == m.reachable_set().len()
    &&& s.transitions_traversed == m.out_edges(m.reachable_set()).len()
    &&& forall|k: nat| #![trigger m.layer(k)] k < s.layers <==> m.layer(k) != Set::<StateId>::empty()
}

/// `t` begins with `p`.
pub open spec fn starts_with(t: Seq<StateId>, p: Seq<StateId>) -> bool {
    p.len() <= t.len() && forall|i: int| 0 <= i < p.len() ==> t[i] == p[i]
}

/// The ids whose search is finished: each once, reachable, failing the
/// condition and left by some transition; every transition from one of them to
/// a state that fails the condition leads to an id listed before it.
pub open spec fn finished(m: GraphModel, cond: Seq<char>, done: Seq<StateId>) -> bool {
    &&& done.no_duplicates()
    &&& forall|i: int|
        0 <= i < done.len() ==> m.reachable(#[trigger] done[i]) && !holds_at(m, cond, done[i]) && !ends_dead(
            m,
            done[i],
        )
    &&& forall|i: int, s: StateId|
        0 <= i < done.len() && #[trigger] m.has_edge(done[i], s) && !holds_at(m, cond, s) ==> exists|j: int|
            0 <= j < i && done[j] == s
}

/// Along a walk whose ids fail the condition and that starts at a finished id,
/// every id is finished, and listed before each id that comes earlier on the walk.
proof fn lemma_finished_walk(m: GraphModel, cond: Seq<char>, done: Seq<StateId>, t: Seq<StateId>, k: int)
    requires
        finished(m, cond, done),
        m.is_walk(t),
        avoids(m, cond, t),
        0 <= k < t.len(),
        done.contains(t[0]),
    ensures
        done.contains(t[k]),
        done[done.index_of(t[k])] == t[k],
        0 <= done.index_of(t[k]) < done.len(),
        forall|a: int| 0 <= a < k ==> done.index_of(t[k]) < done.index_of(#[trigger] t[a]),
    decreases k,
{
    if k > 0 {
        lemma_finished_walk(m, cond, done, t, k - 1);
        let i = done.index_of(t[k - 1]);
        assert(m.is_step(t, k - 1));
        assert(m.has_edge(done[i], t[k]) && !holds_at(m, cond, t[k]));
        let j = choose|j: int| 0 <= j < i && done[j] == t[k];
        assert(done.contains(t[k]));
        let jj = done.index_of(t[k]);
        assert(jj == j) by {
            if jj != j {
                assert(done[jj] == done[j]);
            }
        }
    }
}

/// A suffix of a walk whose ids fail the condition is one too.
proof fn lemma_suffix_walk(m: GraphModel, cond: Seq<char>, q: Seq<StateId>, i: int)
    requires
        m.is_walk(q),
        avoids(m, cond, q),
        0 <= i < q.len(),
    ensures
        m.is_walk(q.subrange(i, q.len() as int)),
        avoids(m, cond, q.subrange(i, q.len() as int)),
{
    let s = q.subrange(i, q.len() as int);
    assert forall|k: int| 0 <= k < s.len() - 1 implies #[trigger] m.is_step(s, k) by {
        assert(m.is_step(q, i + k));
    }
    assert forall|k: int| 0 <= k < s.len() implies !holds_at(m, cond, #[trigger] s[k]) by {
        assert(s[k] == q[i + k]);
    }
}

/// No counterexample passes through a finished id.
proof fn lemma_done_blocks(m: GraphModel, cond: Seq<char>, done: Seq<StateId>, q: Seq<StateId>, i: int)
    requires
        finished(m, cond, done),
        is_liveness_counterexample(m, cond, q),
        0 <= i < q.len(),
    ensures
        !done.contains(q[i]),
{
    if !done.contains(q[i]) {
        return;
    }
    let n = q.len() - 1;
    lemma_suffix_walk(m, cond, q, i);
    let s = q.subrange(i, q.len() as int);
    lemma_finished_walk(m, cond, done, s, s.len() - 1);
    assert(s[s.len() - 1] == q.last());
    let il = done.index_of(q.last());
    assert(!ends_dead(m, done[il]));
    let j = choose|j: int| 0 <= j < q.len() && #[trigger] m.has_edge(q.last(), q[j]);
    assert(m.has_edge(done[il], q[j]) && !holds_at(m, cond, q[j]));
    let j2 = choose|j2: int| 0 <= j2 < il && done[j2] == q[j];
    if j == n {
        assert(done[j2] == done[il]);
    } else {
        lemma_suffix_walk(m, cond, q, j);
        let s2 = q.subrange(j, q.len() as int);
        assert(done.contains(s2[0]));
        lemma_finished_walk(m, cond, done, s2, s2.len() - 1);
        assert(s2[s2.len() - 1] == q.last());
        assert(done.index_of(q.last()) < done.index_of(s2[0]));
        let ij = done.index_of(q[j]);
        assert(done[ij] == done[j2]);
    }
}

/// `p` and `q` agree before index `i`.
pub open spec fn agree_upto(p: Seq<StateId>, q: Seq<StateId>, i: int) -> bool {
    forall|k: int| 0 <= k < i ==> p[k] == q[k]
}

/// `p` comes before `q` in the order of paths: `p` is a proper prefix of `q`,
/// or at the first index where they differ `p` has the smaller id.
pub open spec fn path_before(p: Seq<StateId>, q: Seq<StateId>) -> bool {
    ||| p.len() < q.len() && starts_with(q, p)
    ||| exists|i: int| 0 <= i < p.len() && i < q.len() && p[i] < q[i] && #[trigger] agree_upto(p, q, i)
}

/// No counterexample comes before `t` in the order of paths.
pub open spec fn first_counterexample(m: GraphModel, cond: Seq<char>, t: Seq<StateId>) -> bool {
    forall|q: Seq<StateId>| #[trigger] is_liveness_counterexample(m, cond, q) ==> !path_before(q, t)
}

/// Two paths with the same first id, one before the other once that id is
/// dropped, are in the same order.
proof fn lemma_before_cons(p: Seq<StateId>, q: Seq<StateId>)
    requires
        p.len() > 0,
        q.len() > 0,
        p[0] == q[0],
        path_before(p.drop_first(), q.drop_first()),
    ensures
        path_before(p, q),
{
    let p1 = p.drop_first();
    let q1 = q.drop_first();
    if p1.len() < q1.len() && starts_with(q1, p1) {
        assert forall|k: int| 0 <= k < p.len() implies q[k] == p[k] by {
            if k > 0 {
                assert(q[k] == q1[k - 1] && p[k] == p1[k - 1]);
            }
        }
    } else {
        let i = choose|i: int| 0 <= i < p1.len() && i < q1.len() && p1[i] < q1[i] && #[trigger] agree_upto(p1, q1, i);
        assert(agree_upto(p, q, i + 1)) by {
            assert forall|k: int| 0 <= k < i + 1 implies p[k] == q[k] by {
                if k > 0 {
                    assert(q[k] == q1[k - 1] && p[k] == p1[k - 1]);
                }
            }
        }
        assert(p[i + 1] < q[i + 1]);
    }
}

/// The order of paths is total: of two different paths, one comes first.
pub proof fn lemma_before_total(p: Seq<StateId>, q: Seq<StateId>)
    ensures
        p == q || path_before(p, q) || path_before(q, p),
    decreases p.len(),
{
    if p.len() == 0 || q.len() == 0 {
        if p.len() < q.len() {
            assert(starts_with(q, p));
        } else if q.len() < p.len() {
            assert(starts_with(p, q));
        } else {
            assert(p =~= q);
        }
    } else if p[0] != q[0] {
        assert(agree_upto(p, q, 0));
        assert(agree_upto(q, p, 0));
    } else {
        let p1 = p.drop_first();
        let q1 = q.drop_first();
        lemma_before_total(p1, q1);
        if p1 == q1 {
            assert(p =~= q) by {
                assert forall|k: int| 0 <= k < p.len() implies p[k] == q[k] by {
                    if k > 0 {
                        assert(q[k] == q1[k - 1] && p[k] == p1[k - 1]);
                    }
                }
            }
        } else if path_before(p1, q1) {
            lemma_before_cons(p, q);
        } else {
            lemma_before_cons(q, p);
        }
    }
}

/// The ids of `ids`, each once, in increasing order.
fn sorted_ids(ids: &Vec<StateId>) -> (r: Vec<StateId>)
    ensures
        forall|a: int, b: int| 0 <= a < b < r@.len() ==> r@[a] < r@[b],
        r@.to_set() == ids@.to_set(),
{
    let mut r: Vec<StateId> = Vec::new();
    let mut more = true;
    proof {
        ids@.lemma_cardinality_of_set();
        assert(r@.to_set() =~= Set::<StateId>::empty());
    }
    while more
        invariant
            forall|a: int, b: int| 0 <= a < b < r@.len() ==> r@[a] < r@[b],
            r@.to_set().subset_of(ids@.to_set()),
            r@.len() > 0 ==> forall|x: StateId| ids@.contains(x) && x <= r@.last() ==> r@.contains(x),
            !more ==> forall|x: StateId| ids@.contains(x) ==> r@.contains(x),
            r@.len() <= ids@.len(),
            ids@.to_set().len() <= ids@.len(),
        decreases ids@.len() - r@.len() + (if more { 1int } else { 0int }),
    {
        let mut best: Option<StateId> = None;
        let mut i: usize = 0;
        while i < ids.len()
            invariant
                i <= ids@.len(),
                best matches Some(b) ==> ids@.contains(b) && (r@.len() > 0 ==> b > r@.last()),
                best matches Some(b) ==> forall|k: int|
                    0 <= k < i && (r@.len() == 0 || #[trigger] ids@[k] > r@.last()) ==> b <= ids@[k],
                best is None ==> forall|k: int| 0 <= k < i ==> !(r@.len() == 0 || #[trigger] ids@[k] > r@.last()),
            decreases ids@.len() - i,
        {
            let x = ids[i];
            let above = r.len() == 0 || x > r[r.len() - 1];
            if above {
                match best {
                    Some(b) => {
                        if x < b {
                            best = Some(x);
                        }
                    },
                    None => {
                        best = Some(x);
                    },
                }
            }
            proof {
                assert(ids@.contains(ids@[i as int]));
            }
            i += 1;
        }
        match best {
            Some(b) => {
                let ghost r0 = r@;
                r.push(b);
                proof {
                    lemma_push_to_set(r0, b);
                    assert forall|x: StateId| ids@.contains(x) && x <= r@.last() implies r@.contains(x) by {
                        if r0.len() > 0 && x <= r0.last() {
                            let k = choose|k: int| 0 <= k < r0.len() && r0[k] == x;
                            assert(r@[k] == x);
                        } else {
                            let k = choose|k: int| 0 <= k < ids@.len() && ids@[k] == x;
                            assert(b <= ids@[k]);
                            assert(r@[r0.len() as int] == x);
                        }
                    }
                    assert(r@.no_duplicates()) by {
                        assert forall|a: int, c: int| 0 <= a < r@.len() && 0 <= c < r@.len() && a != c implies r@[a] != r@[c] by {
                            if a < c {
                                assert(r@[a] < r@[c]);
                            } else {
                                assert(r@[c] < r@[a]);
                            }
                        }
                    }
                    lemma_no_dup_len_bound(r@, ids@.to_set());
                }
            },
            None => {
                more = false;
                proof {
                    assert forall|x: StateId| ids@.contains(x) implies r@.contains(x) by {
                        let k = choose|k: int| 0 <= k < ids@.len() && ids@[k] == x;
                        assert(!(r@.len() == 0 || ids@[k] > r@.last()));
                    }
                }
            },
        }
    }
    proof {
        assert forall|x: StateId| ids@.to_set().contains(x) implies r@.to_set().contains(x) by {
            assert(r@.contains(x));
        }
        assert(r@.to_set() =~= ids@.to_set());
    }
    r
}

/// The ids of a sequence that `t` begins with are ids of `t`.
proof fn lemma_starts_with_set(t: Seq<StateId>, p: Seq<StateId>)
    requires
        starts_with(t, p),
    ensures
        p.to_set().subset_of(t.to_set()),
{
    assert forall|x: StateId| p.to_set().contains(x) implies t.to_set().contains(x) by {
        let k = choose|k: int| 0 <= k < p.len() && p[k] == x;
        assert(t[k] == x);
    }
}

/// The main model checker.
#[derive(Clone, Debug)]
pub struct ModelChecker {
    explorer: StateExplorer,
}

impl View for ModelChecker {
    type V = GraphModel;

    closed spec fn view(&self) -> GraphModel {
        self.explorer@
    }
}

/// Statistics about a model checking run.
#[derive(Clone, Debug, PartialEq, Eq, Structural)]
pub struct ModelCheckStats {
    /// Total number of states in the graph.
    pub total_states: usize,
    /// Number of reachable states.
    pub reachable_states: usize,
    /// Number of transitions traversed during exploration.
    pub transitions_traversed: usize,
    /// Number of breadth-first layers.
    pub layers: usize,
}

impl ModelChecker {
    /// A model checker for the given state graph.
    pub fn new(graph: StateGraph) -> (c: ModelChecker)
        ensures
            c@ == graph@,
    {
        ModelChecker { explorer: StateExplorer::new(graph) }
    }

    /// Checks that the state `target` is reachable.
    pub fn check_reachability(&self, target: StateId) -> (r: PropertyResult)
        ensures
            reachability_answer(self@, target, r),
    {
        match self.explorer.find_path_to(target) {
            Some(_path) => PropertyResult::Satisfied,
            None => PropertyResult::Violated(Vec::new()),
        }
    }

    /// Checks that the condition holds in every reachable state.  States are
    /// looked at layer by layer of a breadth-first exploration; in the first
    /// layer that holds a violating state, the one with the smallest id is
    /// reported, with its canonical shortest path.
    pub fn check_invariant(&self, condition: &str) -> (r: PropertyResult)
        ensures
            invariant_answer(self@, condition@, r),
    {
        let ghost m = self@;
        let result = self.explorer.explore_bfs();
        let mut k: usize = 0;
        while k < result.layers.len()
            invariant
                m == self@,
                result.explores(m),
                result.layered(m),
                k <= result.layers@.len(),
                forall|v: StateId, d: nat| d < k ==> !#[trigger] violates_at(m, condition@, v, d),
            decreases result.layers@.len() - k,
        {
            let layer = &result.layers[k];
            proof {
                assert(lists_set(result.layers@[k as int]@, m.layer(k as nat)));
            }
            let mut best: Option<StateId> = None;
            let mut x: usize = 0;
            while x < layer.len()
                invariant
                    m == self@,
                    k < result.layers@.len(),
                    layer == &result.layers@[k as int],
                    lists_set(layer@, m.layer(k as nat)),
                    x <= layer@.len(),
                    best matches Some(b) ==> violates_at(m, condition@, b, k as nat),
                    best matches Some(b) ==> forall|y: int|
                        0 <= y < x && violates_at(m, condition@, #[trigger] layer@[y], k as nat) ==> b <= layer@[y],
                    best is None ==> forall|y: int|
                        0 <= y < x ==> !violates_at(m, condition@, #[trigger] layer@[y], k as nat),
                decreases layer@.len() - x,
            {
                let id = layer[x];
                proof {
                    assert(layer@.to_set().contains(id));
                    assert(m.at_distance(id, k as nat));
                }
                match self.explorer.graph().get_state(id) {
                    Some(state) => {
                        if !eval_condition(condition, &state.vars) {
                            match best {
                                Some(b) => {
                                    if id < b {
                                        best = Some(id);
                                    }
                                },
                                None => {
                                    best = Some(id);
                                },
                            }
                        }
                    },
                    None => {},
                }
                x += 1;
            }
            match best {
                Some(v) => {
                    proof {
                        let d = violation_distance(m, condition@);
                        assert(nearest_distance(m, condition@, k as nat));
                        if d < k {
                            let w = choose|w: StateId| #[trigger] violates_at(m, condition@, w, d);
                        }
                        if d > k {
                            assert(!violates_at(m, condition@, v, k as nat));
                        }
                        assert(d == k);
                        assert forall|w: StateId| #[trigger] violates_at(m, condition@, w, k as nat) implies v <= w by {
                            assert(m.layer(k as nat).contains(w));
                            assert(layer@.to_set().contains(w));
                            let y = choose|y: int| 0 <= y < layer@.len() && layer@[y] == w;
                        }
                        let c = nearest_violator(m, condition@);
                        assert(violates_at(m, condition@, c, k as nat) && v <= c);
                        assert(c <= v);
                        m.lemma_distance_paths(v, k as nat);
                    }
                    let trace = self.canonical_path_to(&result.layers, v, k);
                    proof {
                        assert(m.is_shortest_path(trace@));
                        assert forall|q: Seq<StateId>|
                            #[trigger] m.is_path(q) && m.has_state(q.last()) && !holds_at(m, condition@, q.last())
                                implies trace@.len() <= q.len() by {
                            let w = q.last();
                            assert(m.reachable(w));
                            m.lemma_has_distance(w);
                            let d = choose|d: nat| #[trigger] m.at_distance(w, d);
                            m.lemma_distance_paths(w, d);
                            if d < k {
                                assert(violates_at(m, condition@, w, d));
                            }
                        }
                    }
                    return PropertyResult::Violated(trace);
                },
                None => {},
            }
            proof {
                assert forall|v: StateId, d: nat| d < k + 1 implies !#[trigger] violates_at(m, condition@, v, d) by {
                    if d == k && violates_at(m, condition@, v, d) {
                        assert(m.layer(k as nat).contains(v));
                        assert(layer@.to_set().contains(v));
                        let y = choose|y: int| 0 <= y < layer@.len() && layer@[y] == v;
                    }
                }
            }
            k += 1;
        }
        proof {
            assert forall|v: StateId| #[trigger] m.reachable(v) && m.has_state(v) implies holds_at(
                m,
                condition@,
                v,
            ) by {
                m.lemma_has_distance(v);
                let d = choose|d: nat| #[trigger] m.at_distance(v, d);
                if d >= result.layers@.len() {
                    assert(m.layer(d) == Set::<StateId>::empty());
                    assert(m.layer(d).contains(v));
                }
                if !holds_at(m, condition@, v) {
                    assert(violates_at(m, condition@, v, d));
                }
            }
        }
        PropertyResult::Satisfied
    }

    /// The canonical shortest path to `v`, at distance `k`, found with the
    /// layers of a breadth-first exploration: each step back goes to the
    /// smallest id of the layer before with a transition to the current id.
    fn canonical_path_to(&self, layers: &Vec<Vec<StateId>>, v: StateId, k: usize) -> (p: Vec<StateId>)
        requires
            k < layers@.len(),
            forall|j: int| 0 <= j < layers@.len() ==> lists_set(#[trigger] layers@[j]@, self@.layer(j as nat)),
            self@.at_distance(v, k as nat),
        ensures
            p@ == self@.canonical_path(v, k as nat),
            self@.is_path(p@),
            p@.len() == k + 1,
            p@.last() == v,
        decreases k,
    {
        let ghost m = self@;
        if k == 0 {
            let mut p: Vec<StateId> = Vec::new();
            p.push(v);
            proof {
                law_first_layer_is_initial(m);
                assert(m.layer(0).contains(v));
                assert(m.is_walk(p@));
                assert(p@ =~= seq![v]);
            }
            return p;
        }
        let prev = &layers[k - 1];
        proof {
            assert(lists_set(layers@[k - 1]@, m.layer((k - 1) as nat)));
        }
        let mut best: Option<StateId> = None;
        let mut x: usize = 0;
        while x < prev.len()
            invariant
                m == self@,
                prev == &layers@[k - 1],
                lists_set(prev@, m.layer((k - 1) as nat)),
                x <= prev@.len(),
                best matches Some(b) ==> m.at_distance(b, (k - 1) as nat) && m.has_edge(b, v),
                best matches Some(b) ==> forall|y: int|
                    0 <= y < x && m.has_edge(#[trigger] prev@[y], v) ==> b <= prev@[y],
                best is None ==> forall|y: int| 0 <= y < x ==> !m.has_edge(#[trigger] prev@[y], v),
            decreases prev@.len() - x,
        {
            let u = prev[x];
            proof {
                assert(prev@.to_set().contains(u));
            }
            if self.explorer.graph().has_transition(u, v) {
                match best {
                    Some(b) => {
                        if u < b {
                            best = Some(u);
                        }
                    },
                    None => {
                        best = Some(u);
                    },
                }
            }
            x += 1;
        }
        proof {
            law_layer_predecessor(m, v, (k - 1) as nat);
            let u0 = choose|u: StateId| #[trigger] m.at_distance(u, (k - 1) as nat) && m.has_edge(u, v);
            assert(m.layer((k - 1) as nat).contains(u0));
            assert(prev@.to_set().contains(u0));
            let y0 = choose|y: int| 0 <= y < prev@.len() && prev@[y] == u0;
            assert(m.has_edge(prev@[y0], v));
        }
        let u = match best {
            Some(b) => b,
            None => v,
        };
        proof {
            assert forall|w: StateId| #[trigger] m.at_distance(w, (k - 1) as nat) && m.has_edge(w, v) implies u <= w by {
                assert(m.layer((k - 1) as nat).contains(w));
                assert(prev@.to_set().contains(w));
                let y = choose|y: int| 0 <= y < prev@.len() && prev@[y] == w;
                assert(m.has_edge(prev@[y], v));
            }
            let c = m.canonical_parent(v, k as nat);
            assert(m.at_distance(c, (k - 1) as nat) && m.has_edge(c, v) && c <= u);
            assert(u <= c);
        }
        let mut p = self.canonical_path_to(layers, u, k - 1);
        let ghost p0 = p@;
        p.push(v);
        proof {
            m.lemma_path_push(p0, v);
            assert(p@ == m.canonical_path(m.canonical_parent(v, k as nat), (k - 1) as nat).push(v));
        }
        p
    }

    /// Looks for the first counterexample, in the order of paths, to "the
    /// condition eventually holds": from each initial id that fails the
    /// condition, in increasing order, a depth-first search through the states
    /// that fail it visits successors in increasing order and stops at the
    /// first path that ends at an id no transition leaves, or whose last id
    /// has a transition back to an id on the path.  `satisfying` holds the
    /// reachable ids whose states satisfy the condition.  When no search stops,
    /// there is no counterexample.
    fn find_cycles(&self, satisfying: &HashSet<StateId>, Ghost(cond): Ghost<Seq<char>>) -> (r: Option<Vec<StateId>>)
        requires
            forall|v: StateId| #[trigger] satisfying@.contains(v) <==> self@.reachable(v) && holds_at(self@, cond, v),
        ensures
            r matches Some(t) ==> is_liveness_counterexample(self@, cond, t@) && first_counterexample(self@, cond, t@),
            r is None ==> forall|t: Seq<StateId>| !#[trigger] is_liveness_counterexample(self@, cond, t),
    {
        let ghost m = self@;
        let initial0 = self.explorer.graph().initial_states();
        let initial = sorted_ids(&initial0);
        proof {
            self.explorer.lemma_finite();
            m.lemma_candidates_finite();
            m.lemma_reachable_candidates();
            vstd::set_lib::lemma_len_subset(m.reachable_set(), m.candidates());
        }
        let mut visited: HashSet<StateId> = HashSet::new();
        let mut done: Vec<StateId> = Vec::new();
        let mut i: usize = 0;
        while i < initial.len()
            invariant
                m == self@,
                forall|v: StateId| #[trigger] satisfying@.contains(v) <==> m.reachable(v) && holds_at(m, cond, v),
                m.reachable_set().finite(),
                forall|a: int, b: int| 0 <= a < b < initial@.len() ==> initial@[a] < initial@[b],
                initial@.to_set() == m.initial,
                i <= initial@.len(),
                finished(m, cond, done@),
                visited@ == done@.to_set(),
                forall|q: Seq<StateId>, k: int|
                    0 <= k < i && #[trigger] is_liveness_counterexample(m, cond, q) ==> q[0] != #[trigger] initial@[k],
            decreases initial@.len() - i,
        {
            let v = initial[i];
            proof {
                assert(initial@.to_set().contains(v));
                m.lemma_reachable_step(v, v);
            }
            if satisfying.contains(&v) {
                proof {
                    assert forall|q: Seq<StateId>| #[trigger] is_liveness_counterexample(m, cond, q) implies q[0] != v by {
                        assert(!holds_at(m, cond, q[0]));
                    }
                }
            } else if visited.contains(&v) {
                proof {
                    assert(done@.to_set().contains(v));
                    assert forall|q: Seq<StateId>| #[trigger] is_liveness_counterexample(m, cond, q) implies q[0] != v by {
                        if q[0] == v {
                            lemma_done_blocks(m, cond, done@, q, 0);
                        }
                    }
                }
            } else {
                let mut path: Vec<StateId> = Vec::new();
                path.push(v);
                proof {
                    assert(m.is_walk(path@));
                    assert(path@.drop_last() =~= Seq::<StateId>::empty());
                    assert(path@.drop_last().to_set() =~= Set::<StateId>::empty());
                    assert(visited@ =~= path@.drop_last().to_set().union(done@.to_set()));
                    assert forall|x: StateId| #[trigger] visited@.contains(x) implies m.reachable_set().contains(x) by {
                        let k = choose|k: int| 0 <= k < done@.len() && done@[k] == x;
                    }
                    assert(!done@.contains(v)) by {
                        if done@.contains(v) {
                            let k = choose|k: int| 0 <= k < done@.len() && done@[k] == v;
                            assert(done@.to_set().contains(v));
                        }
                    }
                    assert forall|q: Seq<StateId>| #[trigger] is_liveness_counterexample(m, cond, q) implies !path_before(q, path@) by {
                        if path_before(q, path@) && !(q.len() < path@.len() && starts_with(path@, q)) {
                            let j = choose|j: int| 0 <= j < q.len() && j < path@.len() && q[j] < path@[j] && #[trigger] agree_upto(q, path@, j);
                            assert(j == 0);
                            assert(m.initial.contains(q[0]));
                            assert(initial@.to_set().contains(q[0]));
                            let k = choose|k: int| 0 <= k < initial@.len() && initial@[k] == q[0];
                            if k >= i {
                                assert(initial@[i as int] <= initial@[k]);
                            }
                            assert(q[0] != initial@[k]);
                        }
                    }
                }
                let ghost d0 = done@;
                let found = self.dfs_find_cycles(v, &mut path, &mut visited, &mut done, satisfying, Ghost(cond));
                match found {
                    Some(t) => {
                        return Some(t);
                    },
                    None => {},
                }
                proof {
                    assert(seq![v].drop_last() =~= Seq::<StateId>::empty());
                    assert(seq![v].drop_last().to_set() =~= Set::<StateId>::empty());
                    assert(visited@ =~= done@.to_set());
                    assert forall|q: Seq<StateId>| #[trigger] is_liveness_counterexample(m, cond, q) implies q[0] != v by {
                        if q[0] == v {
                            assert(starts_with(q, seq![v]));
                        }
                    }
                }
            }
            i += 1;
        }
        proof {
            assert forall|t: Seq<StateId>| !#[trigger] is_liveness_counterexample(m, cond, t) by {
                if is_liveness_counterexample(m, cond, t) {
                    assert(initial@.to_set().contains(t[0]));
                    let k = choose|k: int| 0 <= k < initial@.len() && initial@[k] == t[0];
                    assert(t[0] != initial@[k]);
                }
            }
        }
        None
    }

    /// The depth-first search from `current`, the last id of `path`: a path from
    /// an initial id through states that fail the condition, before which no
    /// counterexample comes.  When `current` has no transition out of it, or one
    /// leads back to an id of `path`, `path` is the first counterexample.
    /// Otherwise the searches from its successors, taken in increasing order and
    /// passing over those that satisfy the condition or whose search is
    /// finished, return the first counterexample if one begins with `path`.
    /// When none does, `current` is finished, and `path` is as it was.
    fn dfs_find_cycles(
        &self,
        current: StateId,
        path: &mut Vec<StateId>,
        visited: &mut HashSet<StateId>,
        done: &mut Vec<StateId>,
        satisfying: &HashSet<StateId>,
        Ghost(cond): Ghost<Seq<char>>,
    ) -> (r: Option<Vec<StateId>>)
        requires
            forall|v: StateId| #[trigger] satisfying@.contains(v) <==> self@.reachable(v) && holds_at(self@, cond, v),
            self@.reachable_set().finite(),
            self@.is_path(old(path)@),
            old(path)@.last() == current,
            old(path)@.no_duplicates(),
            avoids(self@, cond, old(path)@),
            first_counterexample(self@, cond, old(path)@),
            finished(self@, cond, old(done)@),
            forall|x: StateId| old(done)@.contains(x) ==> !old(path)@.contains(x),
            old(visited)@ == old(path)@.drop_last().to_set().union(old(done)@.to_set()),
            old(visited)@.subset_of(self@.reachable_set()),
        ensures
            r matches Some(t) ==> is_liveness_counterexample(self@, cond, t@) && first_counterexample(self@, cond, t@),
            r is None ==> forall|q: Seq<StateId>|
                #[trigger] is_liveness_counterexample(self@, cond, q) ==> !starts_with(q, old(path)@),
            r is None ==> final(path)@ == old(path)@,
            r is None ==> finished(self@, cond, final(done)@),
            r is None ==> starts_with(final(done)@, old(done)@),
            r is None ==> final(done)@.contains(current),
            r is None ==> forall|x: StateId| final(done)@.contains(x) ==> !old(path)@.drop_last().contains(x),
            r is None ==> final(visited)@ == old(path)@.drop_last().to_set().union(final(done)@.to_set()),
            r is None ==> final(visited)@.subset_of(self@.reachable_set()),
        decreases self@.reachable_set().len() - old(visited)@.len(),
    {
        let ghost m = self@;
        let ghost p0 = path@;
        let ghost d0 = done@;
        let ghost gv0 = visited@;
        let ghost n = p0.len() as int;
        proof {
            assert(p0.drop_last().push(current) =~= p0);
            lemma_push_to_set(p0.drop_last(), current);
            assert(!p0.drop_last().contains(current)) by {
                if p0.drop_last().contains(current) {
                    let k = choose|k: int| 0 <= k < p0.len() - 1 && p0.drop_last()[k] == current;
                    assert(p0[k] == p0[p0.len() - 1]);
                }
            }
            assert(p0.contains(current)) by {
                assert(p0[p0.len() - 1] == current);
            }
            assert(!gv0.contains(current)) by {
                if d0.to_set().contains(current) {
                    assert(d0.contains(current));
                }
            }
            assert(m.reachable(current)) by {
                assert(m.is_path(p0) && p0.last() == current);
            }
            assert(!holds_at(m, cond, current)) by {
                assert(!holds_at(m, cond, p0[p0.len() - 1]));
            }
            assert forall|x: StateId| #[trigger] p0.to_set().contains(x) implies m.reachable_set().contains(x) by {
                if x == current {
                } else {
                    assert(p0.drop_last().to_set().contains(x));
                }
            }
        }
        visited.insert(current);
        let succs0 = self.explorer.graph().successors(current);
        let succs = sorted_ids(&succs0);
        proof {
            assert(succs@.to_set() == m.successors(current));
        }
        if succs.len() == 0 {
            proof {
                assert forall|s: StateId| !#[trigger] m.has_edge(current, s) by {
                    if m.has_edge(current, s) {
                        assert(m.successors(current).contains(s));
                        assert(succs@.to_set().contains(s));
                    }
                }
                assert(ends_dead(m, p0.last()));
            }
            return Some(copy_ids(path));
        }
        let mut j: usize = 0;
        while j < succs.len()
            invariant
                m == self@,
                path@ == p0,
                m.is_path(p0),
                p0.last() == current,
                avoids(m, cond, p0),
                first_counterexample(m, cond, p0),
                succs@.to_set() == m.successors(current),
                j <= succs@.len(),
                forall|k: int| 0 <= k < j ==> !p0.contains(#[trigger] succs@[k]),
            decreases succs@.len() - j,
        {
            if contains_id(path, succs[j]) {
                proof {
                    assert(succs@.to_set().contains(succs@[j as int]));
                    let k = choose|k: int| 0 <= k < p0.len() && p0[k] == succs@[j as int];
                    assert(m.has_edge(p0.last(), p0[k]));
                    assert(loops_back(m, p0));
                }
                return Some(copy_ids(path));
            }
            j += 1;
        }
        proof {
            assert(!is_liveness_counterexample(m, cond, p0)) by {
                assert(succs@.to_set().contains(succs@[0]));
                assert(m.has_edge(current, succs@[0]));
                assert(!ends_dead(m, p0.last()));
                if loops_back(m, p0) {
                    let x = choose|x: int| 0 <= x < p0.len() && #[trigger] m.has_edge(p0.last(), p0[x]);
                    assert(m.successors(current).contains(p0[x]));
                    assert(succs@.to_set().contains(p0[x]));
                    let k = choose|k: int| 0 <= k < succs@.len() && succs@[k] == p0[x];
                    assert(!p0.contains(succs@[k]));
                }
            }
        }
        let mut j: usize = 0;
        while j < succs.len()
            invariant
                m == self@,
                forall|v: StateId| #[trigger] satisfying@.contains(v) <==> m.reachable(v) && holds_at(m, cond, v),
                m.reachable_set().finite(),
                path@ == p0,
                old(path)@ == p0,
                old(done)@ == d0,
                old(visited)@ == gv0,
                n == p0.len(),
                m.is_path(p0),
                p0.last() == current,
                p0.no_duplicates(),
                avoids(m, cond, p0),
                first_counterexample(m, cond, p0),
                !is_liveness_counterexample(m, cond, p0),
                p0.to_set().subset_of(m.reachable_set()),
                forall|a: int, b: int| 0 <= a < b < succs@.len() ==> succs@[a] < succs@[b],
                succs@.to_set() == m.successors(current),
                forall|k: int| 0 <= k < succs@.len() ==> !p0.contains(#[trigger] succs@[k]),
                j <= succs@.len(),
                finished(m, cond, done@),
                starts_with(done@, d0),
                forall|x: StateId| done@.contains(x) ==> !p0.contains(x),
                visited@ == p0.to_set().union(done@.to_set()),
                visited@.subset_of(m.reachable_set()),
                gv0.insert(current).subset_of(visited@),
                !gv0.contains(current),
                m.reachable(current),
                forall|k: int| 0 <= k < j ==> satisfying@.contains(#[trigger] succs@[k]) || done@.contains(succs@[k]),
                forall|q: Seq<StateId>, k: int|
                    0 <= k < j && #[trigger] is_liveness_counterexample(m, cond, q) && starts_with(q, p0) && q.len() > n
                        ==> q[n] != #[trigger] succs@[k],
            decreases succs@.len() - j,
        {
            let succ = succs[j];
            proof {
                assert(succs@.to_set().contains(succ));
                assert(m.has_edge(current, succ));
                m.lemma_reachable_step(current, succ);
            }
            if satisfying.contains(&succ) {
                proof {
                    assert forall|q: Seq<StateId>|
                        #[trigger] is_liveness_counterexample(m, cond, q) && starts_with(q, p0) && q.len() > n
                            implies q[n] != succ by {
                        assert(!holds_at(m, cond, q[n]));
                    }
                }
            } else if visited.contains(&succ) {
                proof {
                    assert(!p0.to_set().contains(succ)) by {
                        if p0.to_set().contains(succ) {
                            assert(p0.contains(succ));
                        }
                    }
                    assert(done@.to_set().contains(succ));
                    assert forall|q: Seq<StateId>|
                        #[trigger] is_liveness_counterexample(m, cond, q) && starts_with(q, p0) && q.len() > n
                            implies q[n] != succ by {
                        if q[n] == succ {
                            lemma_done_blocks(m, cond, done@, q, n);
                        }
                    }
                }
            } else {
                let ghost dd = done@;
                path.push(succ);
                let ghost np = path@;
                proof {
                    m.lemma_path_push(p0, succ);
                    assert(np.drop_last() =~= p0);
                    assert(!p0.contains(succ));
                    assert forall|i: int| 0 <= i < np.len() implies !holds_at(m, cond, #[trigger] np[i]) by {
                        if i < p0.len() {
                            assert(np[i] == p0[i]);
                        }
                    }
                    assert(np.no_duplicates()) by {
                        assert forall|a: int, b: int| 0 <= a < b < np.len() implies np[a] != np[b] by {
                            if b == p0.len() {
                                assert(np[a] == p0[a]);
                                assert(p0.contains(p0[a]));
                            } else {
                                assert(np[a] == p0[a] && np[b] == p0[b]);
                            }
                        }
                    }
                    assert(!done@.contains(succ)) by {
                        if done@.contains(succ) {
                            assert(done@.to_set().contains(succ));
                        }
                    }
                    assert forall|x: StateId| done@.contains(x) implies !np.contains(x) by {
                        if np.contains(x) {
                            let k = choose|k: int| 0 <= k < np.len() && np[k] == x;
                            if k < p0.len() {
                                assert(p0[k] == x);
                                assert(p0.contains(x));
                            } else {
                                assert(x == succ);
                            }
                        }
                    }
                    assert forall|q: Seq<StateId>| #[trigger] is_liveness_counterexample(m, cond, q) implies !path_before(q, np) by {
                        if path_before(q, np) {
                            if q.len() < np.len() && starts_with(np, q) {
                                if q.len() == p0.len() {
                                    assert(q =~= p0) by {
                                        assert forall|k: int| 0 <= k < q.len() implies q[k] == p0[k] by {
                                            assert(np[k] == p0[k]);
                                        }
                                    }
                                } else {
                                    assert(starts_with(p0, q)) by {
                                        assert forall|k: int| 0 <= k < q.len() implies p0[k] == q[k] by {
                                            assert(np[k] == p0[k]);
                                        }
                                    }
                                    assert(path_before(q, p0));
                                }
                            } else {
                                let i = choose|i: int| 0 <= i < q.len() && i < np.len() && q[i] < np[i] && #[trigger] agree_upto(q, np, i);
                                if i < n {
                                    assert(agree_upto(q, p0, i)) by {
                                        assert forall|k: int| 0 <= k < i implies q[k] == p0[k] by {
                                            assert(np[k] == p0[k]);
                                        }
                                    }
                                    assert(q[i] < p0[i]) by {
                                        assert(np[i] == p0[i]);
                                    }
                                    assert(path_before(q, p0));
                                } else {
                                    assert(starts_with(q, p0)) by {
                                        assert forall|k: int| 0 <= k < p0.len() implies q[k] == p0[k] by {
                                            assert(np[k] == p0[k]);
                                        }
                                    }
                                    assert(m.is_step(q, n - 1));
                                    assert(q[n - 1] == current);
                                    assert(m.successors(current).contains(q[n]));
                                    assert(succs@.to_set().contains(q[n]));
                                    let k = choose|k: int| 0 <= k < succs@.len() && succs@[k] == q[n];
                                    if k >= j {
                                        assert(succs@[j as int] <= succs@[k]);
                                    }
                                    assert(q[n] != succs@[k]);
                                }
                            }
                        }
                    }
                    vstd::set_lib::lemma_len_subset(visited@, m.reachable_set());
                    vstd::set_lib::lemma_len_subset(gv0.insert(current), visited@);
                    vstd::set_lib::lemma_len_subset(gv0, visited@);
                    assert(gv0.insert(current).len() == gv0.len() + 1);
                    assert(0 <= m.reachable_set().len() - visited@.len() < m.reachable_set().len() - gv0.len());
                }
                let found = self.dfs_find_cycles(succ, path, visited, done, satisfying, Ghost(cond));
                match found {
                    Some(t) => {
                        return Some(t);
                    },
                    None => {},
                }
                path.pop();
                proof {
                    assert(path@ =~= p0);
                    assert(starts_with(done@, d0)) by {
                        assert forall|i: int| 0 <= i < d0.len() implies done@[i] == d0[i] by {
                            assert(dd[i] == d0[i]);
                        }
                    }
                    lemma_starts_with_set(done@, dd);
                    assert forall|k: int| 0 <= k < j + 1 implies satisfying@.contains(#[trigger] succs@[k])
                        || done@.contains(succs@[k]) by {
                        if k < j && !satisfying@.contains(succs@[k]) {
                            assert(dd.to_set().contains(succs@[k]));
                        }
                    }
                    assert(gv0.insert(current).subset_of(visited@)) by {
                        assert forall|x: StateId| gv0.insert(current).contains(x) implies visited@.contains(x) by {
                            if x != current && !p0.to_set().contains(x) {
                                assert(dd.to_set().contains(x));
                            }
                        }
                    }
                    assert forall|q: Seq<StateId>|
                        #[trigger] is_liveness_counterexample(m, cond, q) && starts_with(q, p0) && q.len() > n
                            implies q[n] != succ by {
                        if q[n] == succ {
                            assert(starts_with(q, np));
                        }
                    }
                }
            }
            proof {
                assert forall|q: Seq<StateId>, k: int|
                    0 <= k < j + 1 && #[trigger] is_liveness_counterexample(m, cond, q) && starts_with(q, p0) && q.len() > n
                        implies q[n] != #[trigger] succs@[k] by {
                    if k == j {
                        assert(q[n] != succ);
                    }
                }
            }
            j += 1;
        }
        let ghost df = done@;
        done.push(current);
        proof {
            let dn = done@;
            lemma_push_to_set(df, current);
            assert(!df.contains(current));
            assert(dn.no_duplicates()) by {
                assert forall|a: int, b: int| 0 <= a < b < dn.len() implies dn[a] != dn[b] by {
                    if b == df.len() {
                        assert(dn[a] == df[a]);
                        assert(df.contains(df[a]));
                    } else {
                        assert(dn[a] == df[a] && dn[b] == df[b]);
                    }
                }
            }
            assert(!ends_dead(m, current)) by {
                assert(succs@.to_set().contains(succs@[0]));
                assert(m.has_edge(current, succs@[0]));
            }
            assert forall|i: int|
                0 <= i < dn.len() implies m.reachable(#[trigger] dn[i]) && !holds_at(m, cond, dn[i]) && !ends_dead(m, dn[i]) by {
                if i < df.len() {
                    assert(dn[i] == df[i]);
                }
            }
            assert forall|i: int, s: StateId|
                0 <= i < dn.len() && #[trigger] m.has_edge(dn[i], s) && !holds_at(m, cond, s) implies exists|j: int|
                    0 <= j < i && dn[j] == s by {
                if i < df.len() {
                    assert(dn[i] == df[i]);
                    assert(m.has_edge(df[i], s));
                    let j = choose|j: int| 0 <= j < i && df[j] == s;
                    assert(dn[j] == s);
                } else {
                    assert(m.successors(current).contains(s));
                    assert(succs@.to_set().contains(s));
                    let k = choose|k: int| 0 <= k < succs@.len() && succs@[k] == s;
                    m.lemma_reachable_step(current, s);
                    assert(!satisfying@.contains(succs@[k]));
                    assert(df.contains(s));
                    let j = choose|j: int| 0 <= j < df.len() && df[j] == s;
                    assert(dn[j] == s);
                }
            }
            assert(finished(m, cond, dn));
            assert(dn[df.len() as int] == current);
            assert(starts_with(dn, d0));
            assert forall|x: StateId| dn.contains(x) implies !p0.drop_last().contains(x) by {
                let k = choose|k: int| 0 <= k < dn.len() && dn[k] == x;
                if p0.drop_last().contains(x) {
                    let a = choose|a: int| 0 <= a < p0.len() - 1 && p0.drop_last()[a] == x;
                    assert(p0[a] == x);
                    assert(p0.contains(x));
                    if k < df.len() {
                        assert(df[k] == x);
                        assert(df.contains(x));
                    } else {
                        assert(x == current);
                        assert(p0[a] == p0[p0.len() - 1]);
                    }
                }
            }
            assert(visited@ =~= p0.drop_last().to_set().union(dn.to_set()));
            assert forall|q: Seq<StateId>| #[trigger] is_liveness_counterexample(m, cond, q) implies !starts_with(q, p0) by {
                if starts_with(q, p0) {
                    if q.len() == n {
                        assert(q =~= p0);
                    } else {
                        assert(m.is_step(q, n - 1));
                        assert(q[n - 1] == current);
                        assert(m.successors(current).contains(q[n]));
                        assert(succs@.to_set().contains(q[n]));
                        let k = choose|k: int| 0 <= k < succs@.len() && succs@[k] == q[n];
                        assert(q[n] != succs@[k]);
                    }
                }
            }
        }
        None
    }

    /// Checks that on every path from an initial state the condition
    /// eventually holds: violated with a path on which it never holds and that
    /// ends at a state no transition leaves or can go round a cycle forever,
    /// the first such path in the order of paths.
    pub fn check_liveness(&self, condition: &str) -> (r: PropertyResult)
        ensures
            liveness_answer(self@, condition@, r),
    {
        let ghost m = self@;
        let result = self.explorer.explore_bfs();
        let order = &result.visit_order;
        let mut satisfying: HashSet<StateId> = HashSet::new();
        let mut i: usize = 0;
        while i < order.len()
            invariant
                m == self@,
                result.explores(m),
                order == &result.visit_order,
                i <= order@.len(),
                forall|v: StateId|
                    #[trigger] satisfying@.contains(v) <==> order@.subrange(0, i as int).contains(v)
                        && holds_at(m, condition@, v),
            decreases order@.len() - i,
        {
            let id = order[i];
            proof {
                assert(order@.subrange(0, i + 1) =~= order@.subrange(0, i as int).push(id));
            }
            match self.explorer.graph().get_state(id) {
                Some(state) => {
                    if eval_condition(condition, &state.vars) {
                        satisfying.insert(id);
                    }
                },
                None => {},
            }
            proof {
                assert forall|v: StateId| #[trigger] satisfying@.contains(v) <==> order@.subrange(0, i + 1).contains(v)
                    && holds_at(m, condition@, v) by {
                    let pre = order@.subrange(0, i as int);
                    lemma_push_to_set(pre, id);
                    assert(pre.push(id).to_set().contains(v) == pre.to_set().insert(id).contains(v));
                }
            }
            i += 1;
        }
        proof {
            assert(order@.subrange(0, order@.len() as int) =~= order@);
            assert forall|v: StateId| #[trigger] satisfying@.contains(v) <==> m.reachable(v) && holds_at(m, condition@, v) by {
                assert(order@.to_set().contains(v) == m.reachable_set().contains(v));
            }
        }
        match self.find_cycles(&satisfying, Ghost(condition@)) {
            Some(trace) => PropertyResult::Violated(trace),
            None => PropertyResult::Satisfied,
        }
    }

    /// Checks a property: an invariant or a liveness property by its condition;
    /// a reachability property by whether some reachable state has its target
    /// variable set to `true` (violated with an empty trace when none has); a
    /// custom property is always satisfied.
    pub fn check(&self, property: &Property) -> (r: PropertyResult)
        ensures
            match property {
                Property::Invariant { condition, .. } => invariant_answer(self@, condition@, r),
                Property::Reachability { target, .. } => target_answer(self@, target@, r),
                Property::Eventually { condition, .. } => liveness_answer(self@, condition@, r),
                Property::Custom { .. } => r is Satisfied,
            },
    {
        let ghost m = self@;
        match property {
            Property::Invariant { condition, .. } => self.check_invariant(condition.as_str()),
            Property::Reachability { target, .. } => {
                let pred = |vars: &VarMap| -> (b: bool)
                    ensures
                        b == (vars@.contains_key(target@) && vars@[target@]),
                    {
                        match vars.get(target.as_str()) {
                            Some(v) => *v,
                            None => false,
                        }
                    };
                let states = self.explorer.find_states(pred);
                proof {
                    assert forall|x: int| 0 <= x < states@.len() implies var_true(m, target@, #[trigger] states@[x]) by {
                        assert(pred.ensures((&m.states[states@[x] as int].vars,), true));
                    }
                }
                let mut found = false;
                let mut i: usize = 0;
                while i < states.len() && !found
                    invariant
                        m == self@,
                        i <= states@.len(),
                        forall|x: int| 0 <= x < states@.len() ==> var_true(m, target@, #[trigger] states@[x]),
                        found ==> exists|id: StateId| #[trigger] var_true(m, target@, id) && m.reachable(id),
                        !found ==> forall|x: int| 0 <= x < i ==> !m.reachable(#[trigger] states@[x]),
                    decreases states@.len() - i,
                {
                    let id = states[i];
                    match self.check_reachability(id) {
                        PropertyResult::Satisfied => {
                            proof {
                                assert(var_true(m, target@, id) && m.reachable(id));
                            }
                            found = true;
                        },
                        PropertyResult::Violated(_) => {},
                    }
                    i += 1;
                }
                if found {
                    return PropertyResult::Satisfied;
                }
                proof {
                    assert forall|id: StateId| #[trigger] var_true(m, target@, id) implies !m.reachable(id) by {
                        if !states@.contains(id) {
                            assert(pred.ensures((&m.states[id as int].vars,), false));
                        }
                        assert(states@.contains(id));
                        let x = choose|x: int| 0 <= x < states@.len() && states@[x] == id;
                    }
                }
                PropertyResult::Violated(Vec::new())
            },
            Property::Eventually { condition, .. } => self.check_liveness(condition.as_str()),
            Property::Custom { .. } => PropertyResult::Satisfied,
        }
    }

    /// Statistics of a breadth-first exploration.
    pub fn stats(&self) -> (s: ModelCheckStats)
        ensures
            stats_answer(self@, s),
    {
        let ghost m = self@;
        let result = self.explorer.explore_bfs();
        let s = ModelCheckStats {
            total_states: self.explorer.graph().num_states(),
            reachable_states: result.num_reachable(),
            transitions_traversed: result.transitions_traversed,
            layers: result.layers.len(),
        };
        proof {
            assert forall|k: nat| #![trigger m.layer(k)] k < s.layers implies m.layer(k) != Set::<StateId>::empty() by {
                let l = result.layers@[k as int]@;
                assert(lists_set(l, m.layer(k)));
                assert(l.to_set().contains(l[0]));
            }
        }
        s
    }
}

} // verus!

