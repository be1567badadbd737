//! The mathematical model of a state graph, and what paths, reachability and
//! distance mean on it.

use vstd::prelude::*;
use crate::state::{State, StateId};

verus! {

/// What a state graph is: its states (the state with id `i` at index `i`),
/// its transitions, and its initial state ids.  Transitions and initial ids
/// may name ids that have no state.
pub struct GraphModel {
    pub states: Seq<State>,
    pub edges: Set<(StateId, StateId)>,
    pub initial: Set<StateId>,
}

impl GraphModel {
    /// A state with this id exists.
    pub open spec fn has_state(self, id: StateId) -> bool {
        (id as int) < self.states.len()
    }

    /// There is a transition from `s` to `t`.
    pub open spec fn has_edge(self, s: StateId, t: StateId) -> bool {
        self.edges.contains((s, t))
    }

    /// The targets of the transitions out of `v`.
    pub open spec fn successors(self, v: StateId) -> Set<StateId> {
        Set::new(|t: StateId| self.has_edge(v, t))
    }

    /// The sources of the transitions into `v`.
    pub open spec fn predecessors(self, v: StateId) -> Set<StateId> {
        Set::new(|s: StateId| self.has_edge(s, v))
    }

    /// `p[i]` goes to `p[i + 1]` by a transition.
    pub open spec fn is_step(self, p: Seq<StateId>, i: int) -> bool {
        self.has_edge(p[i], p[i + 1])
    }

    /// `p` follows transitions (a walk, repeats allowed).
    pub open spec fn is_walk(self, p: Seq<StateId>) -> bool {
        forall|i: int| 0 <= i < p.len() - 1 ==> #[trigger] self.is_step(p, i)
    }

    /// `p` is a path: it starts at an initial id and follows transitions.
    pub open spec fn is_path(self, p: Seq<StateId>) -> bool {
        &&& p.len() > 0
        &&& self.initial.contains(p[0])
        &&& self.is_walk(p)
    }

    /// Some path ends at `v`.
    pub open spec fn reachable(self, v: StateId) -> bool {
        exists|p: Seq<StateId>| #[trigger] self.is_path(p) && p.last() == v
    }

    /// The reachable ids.
    pub open spec fn reachable_set(self) -> Set<StateId> {
        Set::new(|v: StateId| self.reachable(v))
    }

    /// `p` is a path, and no path to its last id is shorter.
    pub open spec fn is_shortest_path(self, p: Seq<StateId>) -> bool {
        &&& self.is_path(p)
        &&& forall|q: Seq<StateId>| #[trigger]
            self.is_path(q) && q.last() == p.last() ==> p.len() <= q.len()
    }

    /// The shortest paths to `v` take `k` transitions.
    pub open spec fn at_distance(self, v: StateId, k: nat) -> bool {
        exists|p: Seq<StateId>| #[trigger]
            self.is_shortest_path(p) && p.last() == v && p.len() == k + 1
    }

    /// The ids at distance `k` from the initial ids.
    pub open spec fn layer(self, k: nat) -> Set<StateId> {
        Set::new(|v: StateId| self.at_distance(v, k))
    }

    /// The transitions that leave an id of `s`.
    pub open spec fn out_edges(self, s: Set<StateId>) -> Set<(StateId, StateId)> {
        self.edges.filter(|e: (StateId, StateId)| s.contains(e.0))
    }

    /// A dead state: an existing state with no outgoing transition.
    pub open spec fn is_dead(self, v: StateId) -> bool {
        self.has_state(v) && forall|t: StateId| !#[trigger] self.has_edge(v, t)
    }

    /// The smallest id at distance `k - 1` with a transition to `v`: the step
    /// back that a canonical shortest path takes from `v` at distance `k`.
    pub open spec fn canonical_parent(self, v: StateId, k: nat) -> StateId {
        choose|u: StateId|
            self.at_distance(u, (k - 1) as nat) && self.has_edge(u, v) && forall|w: StateId|
                #[trigger] self.at_distance(w, (k - 1) as nat) && self.has_edge(w, v) ==> u <= w
    }

    /// The canonical shortest path to `v`, at distance `k`: it steps back from
    /// each id to its canonical parent until it reaches an initial id.
    pub open spec fn canonical_path(self, v: StateId, k: nat) -> Seq<StateId>
        decreases k,
    {
        if k == 0 {
            seq![v]
        } else {
            self.canonical_path(self.canonical_parent(v, k), (k - 1) as nat).push(v)
        }
    }

    /// The ids reachable in at most `k` transitions.
    pub open spec fn within(self, k: nat) -> Set<StateId>
        decreases k,
    {
        if k == 0 {
            self.initial
        } else {
            let w = self.within((k - 1) as nat);
            w.union(self.image(w))
        }
    }

    /// The ids reachable in fewer than `k` transitions.
    pub open spec fn before(self, k: nat) -> Set<StateId> {
        if k == 0 {
            Set::empty()
        } else {
            self.within((k - 1) as nat)
        }
    }

    /// The targets of transitions out of `s`.
    pub open spec fn image(self, s: Set<StateId>) -> Set<StateId> {
        Set::new(|t: StateId| exists|v: StateId| s.contains(v) && #[trigger] self.has_edge(v, t))
    }

    /// Every id that can be reached at all: initial ids and transition targets.
    pub open spec fn candidates(self) -> Set<StateId> {
        self.initial.union(self.edges.map(|e: (StateId, StateId)| e.1))
    }

    pub proof fn lemma_within_mono(self, j: nat, k: nat)
        requires
            j <= k,
        ensures
            self.within(j).subset_of(self.within(k)),
        decreases k - j,
    {
        if j < k {
            self.lemma_within_mono(j, (k - 1) as nat);
        }
    }

    pub proof fn lemma_within_candidates(self, k: nat)
        ensures
            self.within(k).subset_of(self.candidates()),
        decreases k,
    {
        if k > 0 {
            self.lemma_within_candidates((k - 1) as nat);
            let w = self.within((k - 1) as nat);
            assert forall|t: StateId| #[trigger] self.image(w).contains(t) implies self.candidates().contains(t) by {
                let v = choose|v: StateId| w.contains(v) && #[trigger] self.has_edge(v, t);
                assert(self.edges.contains((v, t)));
                assert(self.edges.map(|e: (StateId, StateId)| e.1).contains(t));
            }
        }
    }

    /// The last id of a path with `n` ids is reached within `n - 1` transitions.
    pub proof fn lemma_path_within(self, p: Seq<StateId>)
        requires
            self.is_path(p),
        ensures
            self.within((p.len() - 1) as nat).contains(p.last()),
        decreases p.len(),
    {
        if p.len() > 1 {
            let q = p.drop_last();
            assert forall|i: int| 0 <= i < q.len() - 1 implies #[trigger] self.is_step(q, i) by {
                assert(self.is_step(p, i));
            }
            self.lemma_path_within(q);
            assert(self.is_step(p, p.len() - 2));
            let w = self.within((q.len() - 1) as nat);
            assert(w.contains(q.last()) && self.has_edge(q.last(), p.last()));
            assert(self.image(w).contains(p.last()));
        }
    }

    /// An id reached within `k` transitions is the end of a path of at most `k + 1` ids.
    pub proof fn lemma_within_path(self, k: nat, v: StateId) -> (p: Seq<StateId>)
        requires
            self.within(k).contains(v),
        ensures
            self.is_path(p),
            p.last() == v,
            p.len() <= k + 1,
        decreases k,
    {
        if k == 0 {
            let p = seq![v];
            assert(self.is_walk(p));
            p
        } else {
            let w = self.within((k - 1) as nat);
            if w.contains(v) {
                self.lemma_within_path((k - 1) as nat, v)
            } else {
                assert(self.image(w).contains(v));
                let u = choose|u: StateId| w.contains(u) && #[trigger] self.has_edge(u, v);
                let q = self.lemma_within_path((k - 1) as nat, u);
                let p = q.push(v);
                assert forall|i: int| 0 <= i < p.len() - 1 implies #[trigger] self.is_step(p, i) by {
                    if i < q.len() - 1 {
                        assert(self.is_step(q, i));
                    }
                }
                p
            }
        }
    }

    /// The ids first reached after exactly `k` transitions are the layer at distance `k`.
    pub proof fn lemma_layer(self, k: nat)
        ensures
            self.layer(k) == self.within(k).difference(self.before(k)),
    {
        assert forall|v: StateId| #![auto]
            self.layer(k).contains(v) == self.within(k).difference(self.before(k)).contains(v) by {
            if self.at_distance(v, k) {
                let p = choose|p: Seq<StateId>| #[trigger]
                    self.is_shortest_path(p) && p.last() == v && p.len() == k + 1;
                self.lemma_path_within(p);
                if k > 0 && self.within((k - 1) as nat).contains(v) {
                    let q = self.lemma_within_path((k - 1) as nat, v);
                    assert(self.is_path(q) && q.last() == p.last());
                }
            }
            if self.within(k).difference(self.before(k)).contains(v) {
                let p = self.lemma_within_path(k, v);
                assert forall|q: Seq<StateId>| #[trigger]
                    self.is_path(q) && q.last() == p.last() implies p.len() <= q.len() by {
                    self.lemma_path_within(q);
                    if q.len() < k + 1 {
                        self.lemma_within_mono((q.len() - 1) as nat, (k - 1) as nat);
                    }
                }
                if p.len() < k + 1 {
                    self.lemma_path_within(p);
                    self.lemma_within_mono((p.len() - 1) as nat, (k - 1) as nat);
                }
                assert(self.is_shortest_path(p) && p.last() == v && p.len() == k + 1);
            }
        }
        assert(self.layer(k) =~= self.within(k).difference(self.before(k)));
    }

    /// Once `within(k)` is closed under transitions, it is everything reachable.
    pub proof fn lemma_closed(self, k: nat)
        requires
            self.image(self.within(k)).subset_of(self.within(k)),
        ensures
            self.reachable_set() == self.within(k),
    {
        assert forall|m: nat| #[trigger] self.within(m).subset_of(self.within(k)) by {
            self.lemma_closed_above(k, m);
        }
        assert forall|v: StateId| #![auto]
            self.reachable_set().contains(v) == self.within(k).contains(v) by {
            if self.reachable(v) {
                let p = choose|p: Seq<StateId>| #[trigger] self.is_path(p) && p.last() == v;
                self.lemma_path_within(p);
                assert(self.within((p.len() - 1) as nat).subset_of(self.within(k)));
            }
            if self.within(k).contains(v) {
                let p = self.lemma_within_path(k, v);
                assert(self.is_path(p) && p.last() == v);
            }
        }
        assert(self.reachable_set() =~= self.within(k));
    }

    proof fn lemma_closed_above(self, k: nat, m: nat)
        requires
            self.image(self.within(k)).subset_of(self.within(k)),
        ensures
            self.within(m).subset_of(self.within(k)),
        decreases m,
    {
        if m <= k {
            self.lemma_within_mono(m, k);
        } else {
            self.lemma_closed_above(k, (m - 1) as nat);
            let w = self.within((m - 1) as nat);
            assert forall|t: StateId| #[trigger] self.image(w).contains(t) implies self.within(
                k,
            ).contains(t) by {
                let v = choose|v: StateId| w.contains(v) && #[trigger] self.has_edge(v, t);
                assert(self.image(self.within(k)).contains(t));
            }
        }
    }

    /// A path extended by a transition is a path.
    pub proof fn lemma_path_push(self, p: Seq<StateId>, t: StateId)
        requires
            self.is_path(p),
            self.has_edge(p.last(), t),
        ensures
            self.is_path(p.push(t)),
    {
        let q = p.push(t);
        assert forall|i: int| 0 <= i < q.len() - 1 implies #[trigger] self.is_step(q, i) by {
            if i < p.len() - 1 {
                assert(self.is_step(p, i));
            }
        }
    }

    /// The first `n` ids of a path are a path.
    pub proof fn lemma_path_prefix(self, p: Seq<StateId>, n: int)
        requires
            self.is_path(p),
            1 <= n <= p.len(),
        ensures
            self.is_path(p.subrange(0, n)),
    {
        let q = p.subrange(0, n);
        assert forall|i: int| 0 <= i < q.len() - 1 implies #[trigger] self.is_step(q, i) by {
            assert(self.is_step(p, i));
        }
    }

    /// Transitions reached so far before `k` lead into `within(k)`.
    pub proof fn lemma_image_before(self, k: nat)
        ensures
            self.image(self.before(k)).subset_of(self.within(k)),
            self.before(k).subset_of(self.within(k)),
    {
        if k == 0 {
            assert forall|t: StateId| #[trigger] self.image(self.before(k)).contains(t) implies false by {
                let v = choose|v: StateId| self.before(k).contains(v) && #[trigger] self.has_edge(v, t);
            }
        } else {
            self.lemma_within_mono((k - 1) as nat, k);
        }
    }

    /// The out-edges of a finite model: a finite subset of the transitions.
    pub proof fn lemma_out_edges_bound(self, s: Set<StateId>)
        requires
            self.edges.finite(),
        ensures
            self.out_edges(s).finite(),
            self.out_edges(s).len() <= self.edges.len(),
    {
        vstd::set_lib::lemma_len_subset(self.out_edges(s), self.edges);
    }

    /// Adding one more source `v` adds exactly its outgoing transitions.
    pub proof fn lemma_out_edges_insert(self, s: Set<StateId>, v: StateId)
        requires
            self.edges.finite(),
            !s.contains(v),
        ensures
            self.successors(v).finite(),
            self.out_edges(s.insert(v)).len() == self.out_edges(s).len() + self.successors(
                v,
            ).len(),
    {
        let one = self.out_edges(set![v]);
        self.lemma_out_edges_bound(set![v]);
        self.lemma_out_edges_bound(s);
        let f = |e: (StateId, StateId)| e.1;
        assert(one.map(f) =~= self.successors(v)) by {
            assert forall|t: StateId| #![auto] one.map(f).contains(t) == self.successors(v).contains(t) by {
                if self.successors(v).contains(t) {
                    assert(one.contains((v, t)));
                    assert(f((v, t)) == t);
                }
            }
        }
        assert(vstd::relations::injective_on(f, one));
        vstd::set_lib::lemma_map_size(one, self.successors(v), f);
        assert(self.out_edges(s.insert(v)) =~= self.out_edges(s).union(one));
        assert(self.out_edges(s).disjoint(one));
        vstd::set_lib::lemma_set_disjoint_lens(self.out_edges(s), one);
    }

    /// The candidates of a model with finitely many transitions and initial ids are finite.
    pub proof fn lemma_candidates_finite(self)
        requires
            self.edges.finite(),
            self.initial.finite(),
        ensures
            self.candidates().finite(),
    {
        self.edges.lemma_map_finite(|e: (StateId, StateId)| e.1);
    }

    /// A path to an id first reached after `k` transitions, with `k + 1` ids, is shortest.
    pub proof fn lemma_shortest(self, p: Seq<StateId>, k: nat)
        requires
            self.is_path(p),
            p.len() == k + 1,
            !self.before(k).contains(p.last()),
        ensures
            self.is_shortest_path(p),
            self.at_distance(p.last(), k),
    {
        assert forall|q: Seq<StateId>| #[trigger]
            self.is_path(q) && q.last() == p.last() implies p.len() <= q.len() by {
            self.lemma_path_within(q);
            if q.len() < k + 1 {
                self.lemma_within_mono((q.len() - 1) as nat, (k - 1) as nat);
            }
        }
        assert(self.is_shortest_path(p));
    }

    /// A set that holds the initial ids and is closed under transitions holds
    /// every reachable id.
    pub proof fn lemma_closed_superset(self, s: Set<StateId>)
        requires
            self.initial.subset_of(s),
            forall|v: StateId, t: StateId| s.contains(v) && #[trigger] self.has_edge(v, t) ==> s.contains(t),
        ensures
            self.reachable_set().subset_of(s),
    {
        assert forall|v: StateId| #[trigger] self.reachable_set().contains(v) implies s.contains(v) by {
            let p = choose|p: Seq<StateId>| #[trigger] self.is_path(p) && p.last() == v;
            self.lemma_path_within(p);
            self.lemma_within_in((p.len() - 1) as nat, s);
        }
    }

    proof fn lemma_within_in(self, k: nat, s: Set<StateId>)
        requires
            self.initial.subset_of(s),
            forall|v: StateId, t: StateId| s.contains(v) && #[trigger] self.has_edge(v, t) ==> s.contains(t),
        ensures
            self.within(k).subset_of(s),
        decreases k,
    {
        if k > 0 {
            self.lemma_within_in((k - 1) as nat, s);
            let w = self.within((k - 1) as nat);
            assert forall|t: StateId| #[trigger] self.image(w).contains(t) implies s.contains(t) by {
                let v = choose|v: StateId| w.contains(v) && #[trigger] self.has_edge(v, t);
            }
        }
    }

    /// Initial ids are reachable, and so is any target of a transition out of a reachable id.
    pub proof fn lemma_reachable_step(self, v: StateId, t: StateId)
        ensures
            self.initial.contains(t) ==> self.reachable(t),
            self.reachable(v) && self.has_edge(v, t) ==> self.reachable(t),
    {
        if self.initial.contains(t) {
            let p = seq![t];
            assert(self.is_walk(p));
            assert(self.is_path(p));
        }
        if self.reachable(v) && self.has_edge(v, t) {
            let p = choose|p: Seq<StateId>| #[trigger] self.is_path(p) && p.last() == v;
            self.lemma_path_push(p, t);
            assert(self.is_path(p.push(t)) && p.push(t).last() == t);
        }
    }

    /// Every reachable id is a candidate.
    pub proof fn lemma_reachable_candidates(self)
        ensures
            self.reachable_set().subset_of(self.candidates()),
    {
        assert forall|v: StateId| #[trigger] self.reachable_set().contains(v) implies self.candidates().contains(v) by {
            let p = choose|p: Seq<StateId>| #[trigger] self.is_path(p) && p.last() == v;
            self.lemma_path_within(p);
            self.lemma_within_candidates((p.len() - 1) as nat);
        }
    }

    /// Every reachable id lies at some distance.
    pub proof fn lemma_has_distance(self, v: StateId)
        requires
            self.reachable(v),
        ensures
            exists|k: nat| #[trigger] self.at_distance(v, k),
    {
        let p = choose|p: Seq<StateId>| #[trigger] self.is_path(p) && p.last() == v;
        self.lemma_path_within(p);
        let k = self.first_depth(v, (p.len() - 1) as nat);
        self.lemma_layer(k);
        assert(self.layer(k).contains(v));
        assert(self.at_distance(v, k));
    }

    /// The least `j <= k` at which `v` is reached.
    proof fn first_depth(self, v: StateId, k: nat) -> (j: nat)
        requires
            self.within(k).contains(v),
        ensures
            j <= k,
            self.within(j).contains(v),
            !self.before(j).contains(v),
        decreases k,
    {
        if k > 0 && self.within((k - 1) as nat).contains(v) {
            self.first_depth(v, (k - 1) as nat)
        } else {
            k
        }
    }

    /// An id at distance `k` is reached by no path of fewer than `k + 1` ids,
    /// and every shortest path to it has exactly `k + 1` ids.
    pub proof fn lemma_distance_paths(self, v: StateId, k: nat)
        requires
            self.at_distance(v, k),
        ensures
            forall|q: Seq<StateId>| #[trigger] self.is_path(q) && q.last() == v ==> k + 1 <= q.len(),
            forall|q: Seq<StateId>|
                #[trigger] self.is_shortest_path(q) && q.last() == v ==> q.len() == k + 1,
    {
        let p = choose|p: Seq<StateId>| #[trigger] self.is_shortest_path(p) && p.last() == v && p.len() == k + 1;
        assert forall|q: Seq<StateId>| #[trigger] self.is_shortest_path(q) && q.last() == v implies q.len() == k + 1 by {
            assert(self.is_path(q) && self.is_path(p));
        }
    }
}

} // verus!
