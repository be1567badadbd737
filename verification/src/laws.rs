//! Laws of the library: properties that relate several of its operations.

use vstd::prelude::*;
use crate::checker::{avoids, lemma_before_total, holds_at, invariant_answer, is_liveness_counterexample, liveness_answer, loops_back, reachability_answer, stats_answer, ModelCheckStats};
use crate::seqs::{lemma_no_dup_len_bound, lemma_push_to_set};
use crate::explorer::ExplorationResult;
use crate::model::GraphModel;
use crate::property::{and_word, eval_cond, not_word, or_word, PropertyResult};
use crate::state::{lists_set, StateId};
use crate::text::{find_from, is_space, lemma_trim_end_is_prefix, lemma_trim_start_is_suffix, occurs_at, trim, trim_end, trim_start};

verus! {

/// Breadth-first and depth-first exploration visit the same states, as many
/// of them, and traverse the same number of transitions.
pub proof fn law_bfs_dfs_agree(m: GraphModel, bfs: ExplorationResult, dfs: ExplorationResult)
    requires
        bfs.explores(m),
        dfs.explores(m),
    ensures
        bfs.reachable@ == dfs.reachable@,
        bfs.visit_order@.to_set() == dfs.visit_order@.to_set(),
        bfs.visit_order@.len() == dfs.visit_order@.len(),
        bfs.transitions_traversed == dfs.transitions_traversed,
{
    bfs.visit_order@.unique_seq_to_set();
    dfs.visit_order@.unique_seq_to_set();
}

/// Every reachable id has a shortest path, and all its shortest paths have the
/// same length: it lies at exactly one distance.
pub proof fn law_distance(m: GraphModel, v: StateId)
    ensures
        m.reachable(v) <==> exists|k: nat| #[trigger] m.at_distance(v, k),
        forall|j: nat, k: nat| m.at_distance(v, j) && m.at_distance(v, k) ==> j == k,
{
    if m.reachable(v) {
        m.lemma_has_distance(v);
    }
    if exists|k: nat| #[trigger] m.at_distance(v, k) {
        let k = choose|k: nat| #[trigger] m.at_distance(v, k);
        let p = choose|p: Seq<StateId>| #[trigger] m.is_shortest_path(p) && p.last() == v && p.len() == k + 1;
        assert(m.is_path(p));
    }
    assert forall|j: nat, k: nat| m.at_distance(v, j) && m.at_distance(v, k) implies j == k by {
        let p = choose|p: Seq<StateId>| #[trigger] m.is_shortest_path(p) && p.last() == v && p.len() == j + 1;
        let q = choose|q: Seq<StateId>| #[trigger] m.is_shortest_path(q) && q.last() == v && q.len() == k + 1;
        assert(m.is_path(q) && m.is_path(p));
    }
}

/// The layers of a breadth-first exploration partition the reachable ids: each
/// reachable id is in exactly one layer, and only reachable ids are.
pub proof fn law_layers_partition(m: GraphModel, r: ExplorationResult, v: StateId)
    requires
        r.explores(m),
        r.layered(m),
    ensures
        r.reachable@.contains(v) <==> exists|k: int|
            0 <= k < r.layers@.len() && (#[trigger] r.layers@[k])@.contains(v),
        forall|j: int, k: int|
            0 <= j < r.layers@.len() && 0 <= k < r.layers@.len() && r.layers@[j]@.contains(v)
                && r.layers@[k]@.contains(v) ==> j == k,
{
    law_distance(m, v);
    if r.reachable@.contains(v) {
        let k = choose|k: nat| #[trigger] m.at_distance(v, k);
        if k >= r.layers@.len() {
            assert(m.layer(k).contains(v));
        }
        let l = r.layers@[k as int]@;
        assert(lists_set(l, m.layer(k)));
        assert(l.to_set().contains(v));
    }
    if exists|k: int| 0 <= k < r.layers@.len() && (#[trigger] r.layers@[k])@.contains(v) {
        let k = choose|k: int| 0 <= k < r.layers@.len() && (#[trigger] r.layers@[k])@.contains(v);
        assert(lists_set(r.layers@[k]@, m.layer(k as nat)));
        assert(r.layers@[k]@.to_set().contains(v));
        assert(m.at_distance(v, k as nat));
    }
    assert forall|j: int, k: int|
        0 <= j < r.layers@.len() && 0 <= k < r.layers@.len() && r.layers@[j]@.contains(v)
            && r.layers@[k]@.contains(v) implies j == k by {
        assert(lists_set(r.layers@[j]@, m.layer(j as nat)));
        assert(lists_set(r.layers@[k]@, m.layer(k as nat)));
        assert(r.layers@[j]@.to_set().contains(v));
        assert(r.layers@[k]@.to_set().contains(v));
        assert(m.at_distance(v, j as nat) && m.at_distance(v, k as nat));
    }
}

/// A shortest path (as `find_path_to` and the counterexamples give) with
/// `k + 1` ids ends in breadth-first layer `k`.
pub proof fn law_shortest_path_layer(m: GraphModel, r: ExplorationResult, p: Seq<StateId>)
    requires
        r.layered(m),
        m.is_shortest_path(p),
    ensures
        p.len() - 1 < r.layers@.len(),
        r.layers@[p.len() - 1]@.contains(p.last()),
{
    let k = (p.len() - 1) as nat;
    assert(m.at_distance(p.last(), k));
    assert(m.layer(k).contains(p.last()));
    if k >= r.layers@.len() {
        assert(m.layer(k) == Set::<StateId>::empty());
    }
    assert(lists_set(r.layers@[k as int]@, m.layer(k)));
    assert(r.layers@[k as int]@.to_set().contains(p.last()));
}

/// A reachability check succeeds exactly when the id is among the reachable
/// states of an exploration.
pub proof fn law_reachability_agrees(m: GraphModel, target: StateId, answer: PropertyResult, r: ExplorationResult)
    requires
        reachability_answer(m, target, answer),
        r.explores(m),
    ensures
        answer is Satisfied <==> r.reachable@.contains(target),
{
}

/// A violated invariant comes with a counterexample: a non-empty trace from
/// an initial state, along transitions, to a reachable state that breaks the
/// condition.
pub proof fn law_invariant_counterexample(m: GraphModel, cond: Seq<char>, answer: PropertyResult)
    requires
        invariant_answer(m, cond, answer),
        answer is Violated,
    ensures
        answer->0@.len() > 0,
        m.initial.contains(answer->0@[0]),
        m.is_walk(answer->0@),
        m.reachable(answer->0@.last()),
        !holds_at(m, cond, answer->0@.last()),
{
    let t = answer->0@;
    assert(m.is_path(t) && t.last() == t.last());
}

/// A condition that holds in every state is an invariant.
pub proof fn law_invariant_everywhere(m: GraphModel, cond: Seq<char>, answer: PropertyResult)
    requires
        invariant_answer(m, cond, answer),
        forall|v: StateId| m.has_state(v) ==> holds_at(m, cond, v),
    ensures
        answer is Satisfied,
{
    if answer is Violated {
        let t = answer->0@;
        assert(m.has_state(t.last()));
    }
}

/// A violated liveness property comes with a path from an initial state,
/// along transitions, on which the condition never holds.
pub proof fn law_liveness_counterexample(m: GraphModel, cond: Seq<char>, answer: PropertyResult)
    requires
        liveness_answer(m, cond, answer),
        answer is Violated,
    ensures
        answer->0@.len() > 0,
        m.initial.contains(answer->0@[0]),
        forall|i: int| 0 <= i < answer->0@.len() - 1 ==> m.has_edge(answer->0@[i], #[trigger] answer->0@[i + 1]),
        forall|i: int| 0 <= i < answer->0@.len() ==> !holds_at(m, cond, #[trigger] answer->0@[i]),
{
    let t = answer->0@;
    assert forall|i: int| 0 <= i < t.len() - 1 implies m.has_edge(t[i], #[trigger] t[i + 1]) by {
        assert(m.is_step(t, i));
    }
}

/// When a liveness property is satisfied, every path from an initial state to
/// a state that no transition leaves passes a state where the condition holds.
pub proof fn law_liveness_dead_ends(m: GraphModel, cond: Seq<char>, t: Seq<StateId>)
    requires
        liveness_answer(m, cond, PropertyResult::Satisfied),
        m.is_path(t),
        forall|s: StateId| !#[trigger] m.has_edge(t.last(), s),
    ensures
        exists|i: int| 0 <= i < t.len() && holds_at(m, cond, #[trigger] t[i]),
{
    assert(!is_liveness_counterexample(m, cond, t));
}

/// When a liveness property is satisfied, the condition holds on every path
/// from an initial state within as many states as are reachable: a path with
/// more states passes a state where it holds.
pub proof fn law_liveness_bound(m: GraphModel, cond: Seq<char>, t: Seq<StateId>)
    requires
        m.edges.finite(),
        m.initial.finite(),
        liveness_answer(m, cond, PropertyResult::Satisfied),
        m.is_path(t),
        t.len() > m.reachable_set().len(),
    ensures
        exists|i: int| 0 <= i < t.len() && holds_at(m, cond, #[trigger] t[i]),
{
    if !exists|i: int| 0 <= i < t.len() && holds_at(m, cond, #[trigger] t[i]) {
        m.lemma_candidates_finite();
        m.lemma_reachable_candidates();
        vstd::set_lib::lemma_len_subset(m.reachable_set(), m.candidates());
        assert forall|x: StateId| t.to_set().contains(x) implies m.reachable_set().contains(x) by {
            let k = choose|k: int| 0 <= k < t.len() && t[k] == x;
            m.lemma_path_prefix(t, k + 1);
            assert(t.subrange(0, k + 1).last() == x);
        }
        if t.no_duplicates() {
            lemma_no_dup_len_bound(t, m.reachable_set());
        } else {
            let (a, b) = choose|a: int, b: int| 0 <= a < t.len() && 0 <= b < t.len() && a != b && t[a] == t[b];
            let (a, b) = if a < b { (a, b) } else { (b, a) };
            let p = t.subrange(0, b);
            m.lemma_path_prefix(t, b);
            assert(m.is_step(t, b - 1));
            assert(m.has_edge(p.last(), p[a]));
            assert(loops_back(m, p));
            assert(avoids(m, cond, p)) by {
                assert forall|i: int| 0 <= i < p.len() implies !holds_at(m, cond, #[trigger] p[i]) by {
                    assert(p[i] == t[i]);
                }
            }
            assert(!is_liveness_counterexample(m, cond, p));
        }
    }
}

/// The statistics agree with a breadth-first exploration: as many reachable
/// states, traversed transitions and layers.
pub proof fn law_stats_match_bfs(m: GraphModel, s: ModelCheckStats, r: ExplorationResult)
    requires
        stats_answer(m, s),
        r.explores(m),
        r.layered(m),
    ensures
        s.reachable_states == r.reachable@.len(),
        s.transitions_traversed == r.transitions_traversed,
        s.layers == r.layers@.len(),
{
    if s.layers < r.layers@.len() {
        let k = s.layers as nat;
        assert(m.layer(k) == Set::<StateId>::empty());
        let l = r.layers@[k as int]@;
        assert(lists_set(l, m.layer(k)));
        assert(l.to_set().contains(l[0]));
    }
    if s.layers > r.layers@.len() {
        let k = r.layers@.len() as nat;
        assert(m.layer(k) == Set::<StateId>::empty());
    }
}

/// The statistics count one layer per distance up to the greatest one: every
/// state at a distance lies within the layer count, and some state lies at the
/// distance of the last layer.
pub proof fn law_stats_layers_distance(m: GraphModel, s: ModelCheckStats, v: StateId, d: nat)
    requires
        stats_answer(m, s),
    ensures
        m.at_distance(v, d) ==> d < s.layers,
        s.layers > 0 ==> exists|w: StateId| #[trigger] m.at_distance(w, (s.layers - 1) as nat),
{
    if m.at_distance(v, d) {
        assert(m.layer(d).contains(v));
    }
    if s.layers > 0 {
        let k = (s.layers - 1) as nat;
        assert(m.layer(k) != Set::<StateId>::empty());
        if forall|w: StateId| !#[trigger] m.at_distance(w, k) {
            assert(m.layer(k) =~= Set::<StateId>::empty());
        }
    }
}

/// The number of transitions out of the ids of `ids`, counted id by id.
pub open spec fn successor_count(m: GraphModel, ids: Seq<StateId>) -> nat
    decreases ids.len(),
{
    if ids.len() == 0 {
        0
    } else {
        successor_count(m, ids.drop_last()) + m.successors(ids.last()).len()
    }
}

/// The transitions out of distinct ids number the sum of their successor counts.
proof fn lemma_out_edges_count(m: GraphModel, ids: Seq<StateId>)
    requires
        m.edges.finite(),
        ids.no_duplicates(),
    ensures
        m.out_edges(ids.to_set()).len() == successor_count(m, ids),
    decreases ids.len(),
{
    if ids.len() == 0 {
        assert(ids.to_set() =~= Set::<StateId>::empty());
        assert(m.out_edges(ids.to_set()) =~= Set::<(StateId, StateId)>::empty());
    } else {
        let p = ids.drop_last();
        let v = ids.last();
        assert(p.push(v) =~= ids);
        assert(p.no_duplicates()) by {
            assert forall|a: int, b: int| 0 <= a < b < p.len() implies p[a] != p[b] by {
                assert(p[a] == ids[a] && p[b] == ids[b]);
            }
        }
        lemma_out_edges_count(m, p);
        lemma_push_to_set(p, v);
        assert(!p.to_set().contains(v)) by {
            if p.contains(v) {
                let k = choose|k: int| 0 <= k < p.len() && p[k] == v;
                assert(ids[k] == ids[ids.len() - 1]);
            }
        }
        m.lemma_out_edges_insert(p.to_set(), v);
    }
}

/// The transitions an exploration traverses number, counted state by state
/// in the order visited, the successors of the states it visits.
pub proof fn law_traversed_successor_count(m: GraphModel, r: ExplorationResult)
    requires
        m.edges.finite(),
        r.explores(m),
    ensures
        r.transitions_traversed == successor_count(m, r.visit_order@),
{
    lemma_out_edges_count(m, r.visit_order@);
}

/// The answer to an invariant check is fixed by the model and the condition:
/// any two answers, such as those of checking a safety property and of
/// checking its invariant directly, agree, and carry the same trace.
pub proof fn law_invariant_answer_unique(m: GraphModel, cond: Seq<char>, r1: PropertyResult, r2: PropertyResult)
    requires
        invariant_answer(m, cond, r1),
        invariant_answer(m, cond, r2),
    ensures
        r1 is Satisfied <==> r2 is Satisfied,
        r1 is Violated ==> r2 is Violated && r1->0@ == r2->0@,
{
    if r1 is Violated && r2 is Satisfied {
        let t = r1->0@;
        assert(m.is_path(t) && t.last() == t.last());
        assert(m.reachable(t.last()));
    }
    if r2 is Violated && r1 is Satisfied {
        let t = r2->0@;
        assert(m.is_path(t) && t.last() == t.last());
        assert(m.reachable(t.last()));
    }
}

/// The answer to a liveness check is fixed by the model and the condition:
/// any two answers, such as those of checking a liveness property and of
/// checking its condition directly, agree, and carry the same counterexample.
pub proof fn law_liveness_answer_unique(m: GraphModel, cond: Seq<char>, r1: PropertyResult, r2: PropertyResult)
    requires
        liveness_answer(m, cond, r1),
        liveness_answer(m, cond, r2),
    ensures
        r1 is Satisfied <==> r2 is Satisfied,
        r1 is Violated ==> r2 is Violated && r1->0@ == r2->0@,
{
    if r1 is Violated && r2 is Satisfied {
        assert(is_liveness_counterexample(m, cond, r1->0@));
    }
    if r2 is Violated && r1 is Satisfied {
        assert(is_liveness_counterexample(m, cond, r2->0@));
    }
    if r1 is Violated && r2 is Violated {
        let t1 = r1->0@;
        let t2 = r2->0@;
        lemma_before_total(t1, t2);
        assert(is_liveness_counterexample(m, cond, t1));
        assert(is_liveness_counterexample(m, cond, t2));
    }
}

/// The transitions of a model number the sum, over any list of distinct ids
/// that holds every source of a transition, of their successor counts.
pub proof fn law_transitions_successor_count(m: GraphModel, ids: Seq<StateId>)
    requires
        m.edges.finite(),
        ids.no_duplicates(),
        forall|s: StateId, t: StateId| #[trigger] m.has_edge(s, t) ==> ids.contains(s),
    ensures
        m.edges.len() == successor_count(m, ids),
{
    lemma_out_edges_count(m, ids);
    assert(m.out_edges(ids.to_set()) =~= m.edges) by {
        assert forall|e: (StateId, StateId)| m.edges.contains(e) implies ids.to_set().contains(e.0) by {
            assert(m.has_edge(e.0, e.1));
        }
    }
}

/// A transition from `s` to `t` makes `t` a successor of `s` and `s` a
/// predecessor of `t`, and nothing else does.
pub proof fn law_successors_predecessors(m: GraphModel, s: StateId, t: StateId)
    ensures
        m.successors(s).contains(t) <==> m.has_edge(s, t),
        m.predecessors(t).contains(s) <==> m.has_edge(s, t),
{
}

/// A name of at least one character, none of them white space.
pub open spec fn is_plain_name(x: Seq<char>) -> bool {
    x.len() > 0 && forall|i: int| 0 <= i < x.len() ==> !is_space(#[trigger] x[i])
}

/// The variable's value, false when it is not set.
pub open spec fn var_value(vars: Map<Seq<char>, bool>, x: Seq<char>) -> bool {
    vars.contains_key(x) && vars[x]
}

proof fn lemma_trim_plain(c: Seq<char>)
    requires
        c.len() > 0,
        !is_space(c[0]),
        !is_space(c[c.len() - 1]),
    ensures
        trim(c) == c,
{
    assert(trim_start(c) == c);
    assert(trim_end(c) == c);
}

proof fn lemma_find_first(s: Seq<char>, p: Seq<char>, from: int, j: int)
    requires
        0 <= from <= j,
        occurs_at(s, p, j),
        forall|i: int| from <= i < j ==> !occurs_at(s, p, i),
    ensures
        find_from(s, p, from) == j,
    decreases j - from,
{
    if from < j {
        lemma_find_first(s, p, from + 1, j);
    }
}

proof fn lemma_find_none(s: Seq<char>, p: Seq<char>, from: int)
    requires
        0 <= from,
        forall|i: int| from <= i ==> !occurs_at(s, p, i),
    ensures
        find_from(s, p, from) == -1,
    decreases s.len() + 1 - from,
{
    if from + p.len() <= s.len() {
        lemma_find_none(s, p, from + 1);
    }
}

proof fn lemma_eval_plain(x: Seq<char>, vars: Map<Seq<char>, bool>)
    requires
        is_plain_name(x),
    ensures
        eval_cond(x, vars) == var_value(vars, x),
{
    lemma_trim_plain(x);
    if x.len() >= 4 && x.subrange(0, 4) == not_word() {
        assert(x.subrange(0, 4)[3] == x[3]);
    }
    assert forall|i: int| 0 <= i implies !occurs_at(x, and_word(), i) by {
        if occurs_at(x, and_word(), i) {
            assert(x.subrange(i, i + 5)[0] == x[i]);
        }
    }
    assert forall|i: int| 0 <= i implies !occurs_at(x, or_word(), i) by {
        if occurs_at(x, or_word(), i) {
            assert(x.subrange(i, i + 4)[0] == x[i]);
        }
    }
    lemma_find_none(x, and_word(), 0);
    lemma_find_none(x, or_word(), 0);
}

/// The condition language on plain variable names: a name is its variable's
/// value (false when unset); `NOT x` negates it; `x AND y` and `x OR y`
/// combine two of them (for `x` other than `NOT`, which would read as a
/// negation).
pub proof fn law_conditions(x: Seq<char>, y: Seq<char>, vars: Map<Seq<char>, bool>)
    requires
        is_plain_name(x),
        is_plain_name(y),
    ensures
        eval_cond(x, vars) == var_value(vars, x),
        eval_cond(not_word() + x, vars) == !var_value(vars, x),
        x != seq!['N', 'O', 'T'] ==> eval_cond(x + and_word() + y, vars) == (var_value(vars, x)
            && var_value(vars, y)),
        x != seq!['N', 'O', 'T'] ==> eval_cond(x + or_word() + y, vars) == (var_value(vars, x)
            || var_value(vars, y)),
{
    lemma_eval_plain(x, vars);
    lemma_eval_plain(y, vars);
    // NOT x
    let c = not_word() + x;
    assert(c[0] == 'N');
    assert(c[c.len() - 1] == x[x.len() - 1]);
    lemma_trim_plain(c);
    assert(c.subrange(0, 4) =~= not_word());
    assert(c.subrange(4, c.len() as int) =~= x);
    if x != seq!['N', 'O', 'T'] {
        // x AND y
        let a = x + and_word() + y;
        let n = x.len() as int;
        assert(a[0] == x[0]);
        assert(a[a.len() - 1] == y[y.len() - 1]);
        lemma_trim_plain(a);
        assert(!(a.len() >= 4 && a.subrange(0, 4) == not_word())) by {
            if a.subrange(0, 4) == not_word() {
                if n >= 4 {
                    assert(a.subrange(0, 4)[3] == x[3]);
                } else if n < 3 {
                    assert(a.subrange(0, 4)[n] == a[n]);
                    assert(a[n] == ' ');
                } else {
                    assert(x =~= seq!['N', 'O', 'T']) by {
                        assert(x[0] == a.subrange(0, 4)[0]);
                        assert(x[1] == a.subrange(0, 4)[1]);
                        assert(x[2] == a.subrange(0, 4)[2]);
                    }
                }
            }
        }
        assert(occurs_at(a, and_word(), n)) by {
            assert(a.subrange(n, n + 5) =~= and_word());
        }
        assert forall|i: int| 0 <= i < n implies !occurs_at(a, and_word(), i) by {
            if occurs_at(a, and_word(), i) {
                assert(a.subrange(i, i + 5)[0] == a[i]);
                assert(a[i] == x[i]);
            }
        }
        lemma_find_first(a, and_word(), 0, n);
        assert(a.subrange(0, n) =~= x);
        assert(a.subrange(n + 5, a.len() as int) =~= y);
        // x OR y
        let o = x + or_word() + y;
        assert(o[0] == x[0]);
        assert(o[o.len() - 1] == y[y.len() - 1]);
        lemma_trim_plain(o);
        assert(!(o.len() >= 4 && o.subrange(0, 4) == not_word())) by {
            if o.subrange(0, 4) == not_word() {
                if n >= 4 {
                    assert(o.subrange(0, 4)[3] == x[3]);
                } else if n < 3 {
                    assert(o.subrange(0, 4)[n] == o[n]);
                    assert(o[n] == ' ');
                } else {
                    assert(x =~= seq!['N', 'O', 'T']) by {
                        assert(x[0] == o.subrange(0, 4)[0]);
                        assert(x[1] == o.subrange(0, 4)[1]);
                        assert(x[2] == o.subrange(0, 4)[2]);
                    }
                }
            }
        }
        assert forall|i: int| 0 <= i implies !occurs_at(o, and_word(), i) by {
            if occurs_at(o, and_word(), i) {
                let w = o.subrange(i, i + 5);
                assert(w[0] == o[i] && w[4] == o[i + 4]);
                assert(o[i] == ' ' && o[i + 4] == ' ');
                if i < n {
                    assert(o[i] == x[i]);
                } else if i == n {
                    assert(o[i + 4] == y[0]);
                } else if i < n + 4 {
                    assert(w[1] == o[i + 1]);
                } else {
                    assert(o[i] == y[i - n - 4]);
                }
            }
        }
        lemma_find_none(o, and_word(), 0);
        assert(occurs_at(o, or_word(), n)) by {
            assert(o.subrange(n, n + 4) =~= or_word());
        }
        assert forall|i: int| 0 <= i < n implies !occurs_at(o, or_word(), i) by {
            if occurs_at(o, or_word(), i) {
                assert(o.subrange(i, i + 4)[0] == o[i]);
                assert(o[i] == x[i]);
            }
        }
        lemma_find_first(o, or_word(), 0, n);
        assert(o.subrange(0, n) =~= x);
        assert(o.subrange(n + 4, o.len() as int) =~= y);
    }
}

/// Some character of `c` is not white space.
pub open spec fn has_text(c: Seq<char>) -> bool {
    exists|i: int| 0 <= i < c.len() && !is_space(#[trigger] c[i])
}

/// Trailing white space of `p + c` is that of `c`, when `c` has some text.
proof fn lemma_trim_end_concat(p: Seq<char>, c: Seq<char>)
    requires
        has_text(c),
    ensures
        trim_end(p + c) == p + trim_end(c),
    decreases c.len(),
{
    let s = p + c;
    if is_space(c[c.len() - 1]) {
        let c1 = c.drop_last();
        let k = choose|i: int| 0 <= i < c.len() && !is_space(#[trigger] c[i]);
        assert(c1[k] == c[k]);
        lemma_trim_end_concat(p, c1);
        assert(s[s.len() - 1] == c[c.len() - 1]);
        assert(s.subrange(0, s.len() - 1) =~= p + c1);
    }
}

/// Leading white space goes the same way whatever follows it.
proof fn lemma_trim_start_push(c: Seq<char>, x: char)
    ensures
        trim_start(c.push(x)) == if trim_start(c).len() == 0 && is_space(x) {
            Seq::<char>::empty()
        } else {
            trim_start(c).push(x)
        },
    decreases c.len(),
{
    let s = c.push(x);
    if c.len() == 0 {
        assert(trim_start(c) == c);
        assert(s =~= seq![x]);
        assert(Seq::<char>::empty().push(x) =~= seq![x]);
        if is_space(x) {
            let e = s.subrange(1, s.len() as int);
            assert(e =~= Seq::<char>::empty());
            assert(trim_start(e) == e);
            assert(trim_start(s) == trim_start(e));
        } else {
            assert(trim_start(s) == s);
        }
    } else if is_space(c[0]) {
        assert(s[0] == c[0]);
        let c1 = c.subrange(1, c.len() as int);
        assert(s.subrange(1, s.len() as int) =~= c1.push(x));
        lemma_trim_start_push(c1, x);
        assert(trim_start(c) == trim_start(c1));
        assert(trim_start(s) == trim_start(c1.push(x)));
    } else {
        assert(s[0] == c[0]);
        assert(trim_start(c) == c);
        assert(trim_start(s) == s);
    }
}

/// Trimming a condition with trailing white space dropped gives the same text.
proof fn lemma_trim_trim_end(c: Seq<char>)
    ensures
        trim(trim_end(c)) == trim(c),
    decreases c.len(),
{
    if c.len() > 0 && is_space(c[c.len() - 1]) {
        let c1 = c.drop_last();
        let x = c[c.len() - 1];
        lemma_trim_trim_end(c1);
        assert(c1.push(x) =~= c);
        lemma_trim_start_push(c1, x);
        let t = trim_start(c1);
        if t.len() == 0 {
            assert(trim_start(c) =~= Seq::<char>::empty());
        } else {
            assert(trim_start(c) == t.push(x));
            assert(t.push(x).subrange(0, t.push(x).len() - 1) =~= t);
        }
    }
}

/// A condition is read after trimming, so conditions that trim alike read alike.
proof fn lemma_eval_same_trim(a: Seq<char>, b: Seq<char>, vars: Map<Seq<char>, bool>)
    requires
        trim(a) == trim(b),
    ensures
        eval_cond(a, vars) == eval_cond(b, vars),
{
}

/// The first four characters of `x + rest`, `x` a plain name other than
/// `NOT` and `rest` starting with a space, are not `NOT `.
proof fn lemma_not_negation(x: Seq<char>, rest: Seq<char>)
    requires
        is_plain_name(x),
        x != seq!['N', 'O', 'T'],
        rest.len() >= 4,
        rest[0] == ' ',
    ensures
        !((x + rest).subrange(0, 4) == not_word()),
{
    let a = x + rest;
    let n = x.len() as int;
    if a.subrange(0, 4) == not_word() {
        if n >= 4 {
            assert(a.subrange(0, 4)[3] == x[3]);
        } else if n < 3 {
            assert(a.subrange(0, 4)[n] == a[n]);
            assert(a[n] == ' ');
        } else {
            assert(x =~= seq!['N', 'O', 'T']) by {
                assert(x[0] == a.subrange(0, 4)[0]);
                assert(x[1] == a.subrange(0, 4)[1]);
                assert(x[2] == a.subrange(0, 4)[2]);
            }
        }
    }
}

/// `NOT c` is the negation of the condition `c`, whatever `c` is, as long as
/// it has some text (with none, `NOT ` trims to the variable name `NOT`).
pub proof fn law_not_condition(c: Seq<char>, vars: Map<Seq<char>, bool>)
    requires
        has_text(c),
    ensures
        eval_cond(not_word() + c, vars) == !eval_cond(c, vars),
{
    let s = not_word() + c;
    assert(s[0] == 'N');
    assert(!is_space(s[0]));
    assert(trim_start(s) == s);
    lemma_trim_end_concat(not_word(), c);
    let t = not_word() + trim_end(c);
    assert(trim(s) == t);
    assert(t.subrange(0, 4) =~= not_word());
    assert(t.subrange(4, t.len() as int) =~= trim_end(c));
    lemma_trim_trim_end(c);
    lemma_eval_same_trim(trim_end(c), c, vars);
}

/// `x AND c`, for a variable name `x` (other than `NOT`), holds exactly when
/// `x` is set to true and the condition `c` holds, whatever `c` is (a name,
/// a negation, a conjunction or a disjunction), as long as it has some text.
pub proof fn law_and_condition(x: Seq<char>, c: Seq<char>, vars: Map<Seq<char>, bool>)
    requires
        is_plain_name(x),
        x != seq!['N', 'O', 'T'],
        has_text(c),
    ensures
        eval_cond(x + and_word() + c, vars) == (var_value(vars, x) && eval_cond(c, vars)),
{
    let p = x + and_word();
    let s = p + c;
    let n = x.len() as int;
    assert(s[0] == x[0]);
    assert(trim_start(s) == s);
    lemma_trim_end_concat(p, c);
    let t = p + trim_end(c);
    assert(trim(s) == t);
    assert(t =~= x + (and_word() + trim_end(c)));
    lemma_not_negation(x, and_word() + trim_end(c));
    assert(occurs_at(t, and_word(), n)) by {
        assert(t.subrange(n, n + 5) =~= and_word());
    }
    assert forall|i: int| 0 <= i < n implies !occurs_at(t, and_word(), i) by {
        if occurs_at(t, and_word(), i) {
            assert(t.subrange(i, i + 5)[0] == t[i]);
            assert(t[i] == x[i]);
        }
    }
    lemma_find_first(t, and_word(), 0, n);
    assert(t.subrange(0, n) =~= x);
    assert(t.subrange(n + 5, t.len() as int) =~= trim_end(c));
    lemma_eval_plain(x, vars);
    lemma_trim_trim_end(c);
    lemma_eval_same_trim(trim_end(c), c, vars);
}

/// `x OR c`, for a variable name `x` (other than `NOT`), holds exactly when
/// `x` is set to true or the condition `c` holds, for any `c` with some text
/// in which ` AND ` does not occur, not even right after the ` OR ` (a
/// conjunction binds first: `x OR a AND b` reads as `(x OR a) AND b`).
pub proof fn law_or_condition(x: Seq<char>, c: Seq<char>, vars: Map<Seq<char>, bool>)
    requires
        is_plain_name(x),
        x != seq!['N', 'O', 'T'],
        has_text(c),
        forall|i: int| !occurs_at(or_word() + c, and_word(), i),
    ensures
        eval_cond(x + or_word() + c, vars) == (var_value(vars, x) || eval_cond(c, vars)),
{
    let p = x + or_word();
    let s = p + c;
    let n = x.len() as int;
    let e = trim_end(c);
    assert(s[0] == x[0]);
    assert(trim_start(s) == s);
    lemma_trim_end_concat(p, c);
    let t = p + e;
    assert(trim(s) == t);
    assert(t =~= x + (or_word() + e));
    lemma_not_negation(x, or_word() + e);
    lemma_trim_end_is_prefix(c);
    let j = choose|j: int| 0 <= j <= c.len() && trim_end(c) == c.subrange(0, j);
    let w = or_word() + c;
    assert forall|i: int| 0 <= i implies !occurs_at(t, and_word(), i) by {
        if occurs_at(t, and_word(), i) {
            let u = t.subrange(i, i + 5);
            assert(u[0] == t[i]);
            assert(t[i] == ' ');
            if i < n {
                assert(t[i] == x[i]);
            } else {
                assert(w.subrange(i - n, i - n + 5) =~= u) by {
                    assert forall|k: int| 0 <= k < 5 implies w.subrange(i - n, i - n + 5)[k] == u[k] by {
                        assert(u[k] == t[i + k]);
                        if i + k < n + 4 {
                            assert(t[i + k] == w[i - n + k]);
                        } else {
                            assert(t[i + k] == e[i + k - n - 4]);
                            assert(e[i + k - n - 4] == c[i + k - n - 4]);
                            assert(w[i - n + k] == c[i + k - n - 4]);
                        }
                    }
                }
                assert(occurs_at(w, and_word(), i - n));
            }
        }
    }
    lemma_find_none(t, and_word(), 0);
    assert(occurs_at(t, or_word(), n)) by {
        assert(t.subrange(n, n + 4) =~= or_word());
    }
    assert forall|i: int| 0 <= i < n implies !occurs_at(t, or_word(), i) by {
        if occurs_at(t, or_word(), i) {
            assert(t.subrange(i, i + 4)[0] == t[i]);
            assert(t[i] == x[i]);
        }
    }
    lemma_find_first(t, or_word(), 0, n);
    assert(t.subrange(0, n) =~= x);
    assert(t.subrange(n + 4, t.len() as int) =~= e);
    lemma_eval_plain(x, vars);
    lemma_trim_trim_end(c);
    lemma_eval_same_trim(e, c, vars);
}

/// Leading white space of `l + r` is that of `l`, when `l` has some text.
proof fn lemma_trim_start_concat(l: Seq<char>, r: Seq<char>)
    requires
        has_text(l),
    ensures
        trim_start(l + r) == trim_start(l) + r,
    decreases l.len(),
{
    let s = l + r;
    assert(s[0] == l[0]);
    if is_space(l[0]) {
        let l1 = l.subrange(1, l.len() as int);
        let k = choose|i: int| 0 <= i < l.len() && !is_space(#[trigger] l[i]);
        assert(l1[k - 1] == l[k]);
        lemma_trim_start_concat(l1, r);
        assert(s.subrange(1, s.len() as int) =~= l1 + r);
    }
}

/// What trimming leading white space leaves does not start with white space.
proof fn lemma_trim_start_first(l: Seq<char>)
    ensures
        trim_start(l).len() > 0 ==> !is_space(trim_start(l)[0]),
        trim_start(trim_start(l)) == trim_start(l),
    decreases l.len(),
{
    if l.len() > 0 && is_space(l[0]) {
        lemma_trim_start_first(l.subrange(1, l.len() as int));
    }
}

/// `pat` found in a piece of `s` is found in `s`.
proof fn lemma_occurs_in_piece(s: Seq<char>, t: Seq<char>, pat: Seq<char>, d: int, i: int)
    requires
        0 <= d,
        d + t.len() <= s.len(),
        t == s.subrange(d, d + t.len()),
        occurs_at(t, pat, i),
    ensures
        occurs_at(s, pat, i + d),
{
    assert(s.subrange(i + d, i + d + pat.len()) =~= t.subrange(i, i + pat.len()));
}

/// The text `l + op + c` trims to the trimmed `l`, then `op`, then `c` without
/// its trailing white space: a piece of `l + op + c`.
proof fn lemma_trim_binary(l: Seq<char>, op: Seq<char>, c: Seq<char>) -> (d: int)
    requires
        has_text(l),
        has_text(c),
    ensures
        0 <= d <= l.len(),
        trim_start(l) == l.subrange(d, l.len() as int),
        trim(l + op + c) == trim_start(l) + op + trim_end(c),
        trim(l + op + c) == (l + op + c).subrange(d, d + trim(l + op + c).len()),
        d + trim(l + op + c).len() <= (l + op + c).len(),
        trim(trim_start(l)) == trim(l),
{
    let s = l + op + c;
    lemma_trim_start_is_suffix(l);
    let d = choose|i: int| 0 <= i <= l.len() && trim_start(l) == l.subrange(i, l.len() as int);
    lemma_trim_start_concat(l, op + c);
    assert(l + (op + c) =~= s);
    let tl = trim_start(l);
    lemma_trim_end_concat(tl + op, c);
    assert(tl + (op + c) =~= (tl + op) + c);
    lemma_trim_end_is_prefix(c);
    let j = choose|j: int| 0 <= j <= c.len() && trim_end(c) == c.subrange(0, j);
    let t = tl + op + trim_end(c);
    assert(t =~= s.subrange(d, d + t.len()));
    lemma_trim_start_first(l);
    d
}

/// Whether a condition reads as a negation: it starts with `NOT `.
pub open spec fn starts_negated(s: Seq<char>) -> bool {
    s.len() >= 4 && s.subrange(0, 4) == not_word()
}

/// `l AND c` holds exactly when the condition `l` and the condition `c` both
/// hold, for any `l` and `c` with some text such that the first ` AND ` of
/// `l AND c` is the one after `l` and the whole does not read as a negation
/// (`l` trimmed does not start with `NOT `, and is not `NOT` itself).
pub proof fn law_and_split(l: Seq<char>, c: Seq<char>, vars: Map<Seq<char>, bool>)
    requires
        has_text(l),
        has_text(c),
        forall|i: int| 0 <= i < l.len() ==> !occurs_at(l + and_word(), and_word(), i),
        !starts_negated(trim_start(l) + and_word()),
    ensures
        eval_cond(l + and_word() + c, vars) == (eval_cond(l, vars) && eval_cond(c, vars)),
{
    let s = l + and_word() + c;
    let d = lemma_trim_binary(l, and_word(), c);
    let tl = trim_start(l);
    let t = trim(s);
    let n = tl.len() as int;
    assert(t.subrange(0, 4) =~= (tl + and_word()).subrange(0, 4));
    assert(occurs_at(t, and_word(), n)) by {
        assert(t.subrange(n, n + 5) =~= and_word());
    }
    assert forall|i: int| 0 <= i < n implies !occurs_at(t, and_word(), i) by {
        if occurs_at(t, and_word(), i) {
            lemma_occurs_in_piece(s, t, and_word(), d, i);
            assert(s.subrange(i + d, i + d + 5) =~= (l + and_word()).subrange(i + d, i + d + 5));
            assert(occurs_at(l + and_word(), and_word(), i + d));
        }
    }
    lemma_find_first(t, and_word(), 0, n);
    assert(t.subrange(0, n) =~= tl);
    assert(t.subrange(n + 5, t.len() as int) =~= trim_end(c));
    lemma_eval_same_trim(tl, l, vars);
    lemma_trim_trim_end(c);
    lemma_eval_same_trim(trim_end(c), c, vars);
}

/// `l OR c` holds exactly when the condition `l` or the condition `c` holds,
/// for any `l` and `c` with some text such that ` AND ` does not occur in
/// `l OR c` (a conjunction is split first), the first ` OR ` of `l OR c` is
/// the one after `l`, and the whole does not read as a negation.
pub proof fn law_or_split(l: Seq<char>, c: Seq<char>, vars: Map<Seq<char>, bool>)
    requires
        has_text(l),
        has_text(c),
        forall|i: int| !occurs_at(l + or_word() + c, and_word(), i),
        forall|i: int| 0 <= i < l.len() ==> !occurs_at(l + or_word(), or_word(), i),
        !starts_negated(trim_start(l) + or_word()),
    ensures
        eval_cond(l + or_word() + c, vars) == (eval_cond(l, vars) || eval_cond(c, vars)),
{
    let s = l + or_word() + c;
    let d = lemma_trim_binary(l, or_word(), c);
    let tl = trim_start(l);
    let t = trim(s);
    let n = tl.len() as int;
    assert(t.subrange(0, 4) =~= (tl + or_word()).subrange(0, 4));
    assert forall|i: int| 0 <= i implies !occurs_at(t, and_word(), i) by {
        if occurs_at(t, and_word(), i) {
            lemma_occurs_in_piece(s, t, and_word(), d, i);
        }
    }
    lemma_find_none(t, and_word(), 0);
    assert(occurs_at(t, or_word(), n)) by {
        assert(t.subrange(n, n + 4) =~= or_word());
    }
    assert forall|i: int| 0 <= i < n implies !occurs_at(t, or_word(), i) by {
        if occurs_at(t, or_word(), i) {
            lemma_occurs_in_piece(s, t, or_word(), d, i);
            assert(s.subrange(i + d, i + d + 4) =~= (l + or_word()).subrange(i + d, i + d + 4));
            assert(occurs_at(l + or_word(), or_word(), i + d));
        }
    }
    lemma_find_first(t, or_word(), 0, n);
    assert(t.subrange(0, n) =~= tl);
    assert(t.subrange(n + 4, t.len() as int) =~= trim_end(c));
    lemma_eval_same_trim(tl, l, vars);
    lemma_trim_trim_end(c);
    lemma_eval_same_trim(trim_end(c), c, vars);
}

/// Setting a variable: reading it back gives the value set, and every other
/// variable reads as before.
pub proof fn law_var_read_after_write(
    before: Map<Seq<char>, bool>,
    after: Map<Seq<char>, bool>,
    name: Seq<char>,
    value: bool,
)
    requires
        after == before.insert(name, value),
    ensures
        after.contains_key(name) && after[name] == value,
        forall|other: Seq<char>|
            other != name ==> (#[trigger] after.contains_key(other) == before.contains_key(other)
                && (before.contains_key(other) ==> after[other] == before[other])),
{
}

/// Adding a transition makes it present; adding one that is already present
/// changes nothing, so the number of transitions does not grow.
pub proof fn law_add_transition_idempotent(before: GraphModel, after: GraphModel, s: StateId, t: StateId)
    requires
        after.edges == before.edges.insert((s, t)),
    ensures
        after.has_edge(s, t),
        before.has_edge(s, t) ==> after.edges == before.edges,
{
    if before.has_edge(s, t) {
        assert(after.edges =~= before.edges);
    }
}

/// The first breadth-first layer is exactly the set of initial ids.
pub proof fn law_first_layer_is_initial(m: GraphModel)
    ensures
        m.layer(0) == m.initial,
{
    m.lemma_layer(0);
    assert(m.within(0).difference(m.before(0)) =~= m.initial);
}

/// A shortest path to an initial id is that id alone.
pub proof fn law_shortest_path_to_initial(m: GraphModel, p: Seq<StateId>)
    requires
        m.is_shortest_path(p),
        m.initial.contains(p.last()),
    ensures
        p == seq![p.last()],
{
    let q = seq![p.last()];
    assert(m.is_walk(q));
    assert(m.is_path(q) && q.last() == p.last());
    assert(p.len() == 1);
    assert(p =~= q);
}

/// Every id at distance `k + 1` is the target of a transition from an id at
/// distance `k`.
pub proof fn law_layer_predecessor(m: GraphModel, v: StateId, k: nat)
    requires
        m.at_distance(v, k + 1),
    ensures
        exists|u: StateId| #[trigger] m.at_distance(u, k) && m.has_edge(u, v),
{
    let p = choose|p: Seq<StateId>| #[trigger] m.is_shortest_path(p) && p.last() == v && p.len() == k + 2;
    let q = p.drop_last();
    let u = q.last();
    assert forall|i: int| 0 <= i < q.len() - 1 implies #[trigger] m.is_step(q, i) by {
        assert(m.is_step(p, i));
    }
    assert(m.is_path(q));
    assert(m.is_step(p, k as int));
    assert(m.has_edge(u, v));
    assert forall|r: Seq<StateId>| #[trigger] m.is_path(r) && r.last() == q.last() implies q.len() <= r.len() by {
        m.lemma_path_push(r, v);
        assert(m.is_path(r.push(v)) && r.push(v).last() == v);
    }
    assert(m.is_shortest_path(q) && q.last() == u && q.len() == k + 1);
    assert(m.at_distance(u, k));
}

} // verus!
