//! States, their boolean variables, and the state graph.

use vstd::prelude::*;
use vstd::string::StringExecFns;
use crate::text::{chars_of, eq_range};
use crate::model::GraphModel;
use crate::seqs::lemma_push_to_set;

verus! {

/// Unique identifier of a state.
pub type StateId = u32;

/// One variable binding: its name, the name's characters, and its value.
#[derive(Debug)]
struct Entry {
    name: String,
    key: Vec<char>,
    value: bool,
}

/// The boolean variables (atomic propositions) of a state: a finite map
/// from variable names to values, kept in insertion order.
#[derive(Debug)]
pub struct VarMap {
    entries: Vec<Entry>,
}

/// The map that a sequence of bindings with distinct names denotes.
pub open spec fn bindings_to_map(s: Seq<(Seq<char>, bool)>) -> Map<Seq<char>, bool> {
    Map::new(
        |k: Seq<char>| exists|i: int| 0 <= i < s.len() && (#[trigger] s[i]).0 == k,
        |k: Seq<char>| s[choose|i: int| 0 <= i < s.len() && (#[trigger] s[i]).0 == k].1,
    )
}

/// No name occurs twice among the bindings.
pub open spec fn distinct_names(s: Seq<(Seq<char>, bool)>) -> bool {
    forall|i: int, j: int| 0 <= i < s.len() && 0 <= j < s.len() && i != j ==> s[i].0 != s[j].0
}

/// With distinct names, the binding at index `i` is what the map holds for its name.
pub proof fn lemma_bindings_at(s: Seq<(Seq<char>, bool)>, i: int)
    requires
        distinct_names(s),
        0 <= i < s.len(),
    ensures
        bindings_to_map(s).contains_key(s[i].0),
        bindings_to_map(s)[s[i].0] == s[i].1,
{
    let k = s[i].0;
    assert(0 <= i < s.len() && s[i].0 == k);
    let j = choose|j: int| 0 <= j < s.len() && (#[trigger] s[j]).0 == k;
    assert(j == i);
}

impl VarMap {
    #[verifier::type_invariant]
    spec fn inv(self) -> bool {
        &&& forall|i: int|
            0 <= i < self.entries.len() ==> (#[trigger] self.entries@[i]).key@
                == self.entries@[i].name@
        &&& distinct_names(self.bindings())
    }

    /// The bindings in insertion order.
    pub closed spec fn bindings(self) -> Seq<(Seq<char>, bool)> {
        self.entries@.map_values(|e: Entry| (e.key@, e.value))
    }

    proof fn lemma_view_at(self, i: int)
        requires
            self.inv(),
            0 <= i < self.entries.len(),
        ensures
            self@.contains_key(self.entries@[i].key@),
            self@[self.entries@[i].key@] == self.entries@[i].value,
    {
        lemma_bindings_at(self.bindings(), i);
    }

    /// An empty map.
    pub fn new() -> (m: VarMap)
        ensures
            m@ == Map::<Seq<char>, bool>::empty(),
            m.bindings() == Seq::<(Seq<char>, bool)>::empty(),
    {
        let m = VarMap { entries: Vec::new() };
        assert(m@ =~= Map::<Seq<char>, bool>::empty());
        m
    }

    /// The index of the binding named `s[lo..hi]`, if there is one.
    fn find_key(&self, s: &Vec<char>, lo: usize, hi: usize) -> (r: Option<usize>)
        requires
            lo <= hi <= s.len(),
        ensures
            match r {
                Some(i) => i < self.entries.len() && self.entries@[i as int].key@ == s@.subrange(
                    lo as int,
                    hi as int,
                ),
                None => forall|i: int|
                    0 <= i < self.entries.len() ==> self.entries@[i].key@ != s@.subrange(
                        lo as int,
                        hi as int,
                    ),
            },
    {
        let mut i: usize = 0;
        while i < self.entries.len()
            invariant
                lo <= hi <= s.len(),
                i <= self.entries.len(),
                forall|j: int|
                    0 <= j < i ==> self.entries@[j].key@ != s@.subrange(lo as int, hi as int),
            decreases self.entries.len() - i,
        {
            if eq_range(&self.entries[i].key, s, lo, hi) {
                return Some(i);
            }
            i += 1;
        }
        None
    }

    /// The value bound to the name `s[lo..hi]`, if any.
    pub(crate) fn get_range(&self, s: &Vec<char>, lo: usize, hi: usize) -> (r: Option<bool>)
        requires
            lo <= hi <= s.len(),
        ensures
            r == (if self@.contains_key(s@.subrange(lo as int, hi as int)) {
                Some(self@[s@.subrange(lo as int, hi as int)])
            } else {
                None::<bool>
            }),
    {
        proof {
            use_type_invariant(self);
        }
        match self.find_key(s, lo, hi) {
            Some(i) => {
                proof {
                    self.lemma_view_at(i as int);
                }
                Some(self.entries[i].value)
            },
            None => {
                proof {
                    let k = s@.subrange(lo as int, hi as int);
                    if self@.contains_key(k) {
                        let j = choose|j: int|
                            0 <= j < self.bindings().len() && (#[trigger] self.bindings()[j]).0
                                == k;
                        assert(self.entries@[j].key@ == k);
                    }
                }
                None
            },
        }
    }

    /// The value bound to `name`, if any.
    pub fn get(&self, name: &str) -> (r: Option<&bool>)
        ensures
            match r {
                Some(v) => self@.contains_key(name@) && *v == self@[name@],
                None => !self@.contains_key(name@),
            },
    {
        proof {
            use_type_invariant(self);
        }
        let key = chars_of(name);
        proof {
            assert(key@.subrange(0, key@.len() as int) =~= key@);
        }
        match self.find_key(&key, 0, key.len()) {
            Some(i) => {
                proof {
                    self.lemma_view_at(i as int);
                }
                Some(&self.entries[i].value)
            },
            None => {
                proof {
                    let k = name@;
                    if self@.contains_key(k) {
                        let j = choose|j: int|
                            0 <= j < self.bindings().len() && (#[trigger] self.bindings()[j]).0
                                == k;
                        assert(self.entries@[j].key@ == k);
                    }
                }
                None
            },
        }
    }

    /// Whether `name` is bound.
    pub fn contains_key(&self, name: &str) -> (r: bool)
        ensures
            r == self@.contains_key(name@),
    {
        self.get(name).is_some()
    }

    /// Binds `name` to `value`, returning the value it had before, if any.
    /// A new name goes after the existing ones; a bound name keeps its place.
    pub fn insert(&mut self, name: String, value: bool) -> (r: Option<bool>)
        ensures
            final(self)@ == old(self)@.insert(name@, value),
            r == (if old(self)@.contains_key(name@) {
                Some(old(self)@[name@])
            } else {
                None::<bool>
            }),
            match r {
                Some(_) => exists|i: int|
                    0 <= i < old(self).bindings().len() && (#[trigger] old(self).bindings()[i]).0
                        == name@ && final(self).bindings() == old(self).bindings().update(
                        i,
                        (name@, value),
                    ),
                None => final(self).bindings() == old(self).bindings().push((name@, value)),
            },
    {
        proof {
            use_type_invariant(&*self);
        }
        let key = chars_of(name.as_str());
        proof {
            assert(key@.subrange(0, key@.len() as int) =~= key@);
        }
        let ghost pre = *self;
        let found = self.find_key(&key, 0, key.len());
        let mut taken = VarMap { entries: Vec::new() };
        std::mem::swap(self, &mut taken);
        let mut entries = taken.entries;
        assert(entries@ == pre.entries@);
        match found {
            Some(i) => {
                let prev = entries[i].value;
                proof {
                    pre.lemma_view_at(i as int);
                }
                let e = Entry { name, key, value };
                entries.set(i, e);
                proof {
                    let nb = entries@.map_values(|e: Entry| (e.key@, e.value));
                    assert(nb =~= pre.bindings().update(i as int, (name@, value)));
                    assert(pre.bindings()[i as int].0 == name@);
                    assert forall|a: int| 0 <= a < nb.len() implies #[trigger] nb[a].0
                        == pre.bindings()[a].0 by {}
                    assert(distinct_names(pre.bindings()));
                    assert(distinct_names(nb));
                }
                *self = VarMap { entries };
                proof {
                    assert(self.bindings() =~= pre.bindings().update(i as int, (name@, value)));
                    assert(pre.bindings()[i as int].0 == name@);
                    assert forall|k: Seq<char>|
                        #![auto]
                        self@.contains_key(k) == pre@.insert(name@, value).contains_key(k) by {
                        if k == name@ {
                            assert(self.bindings()[i as int].0 == k);
                        } else if pre@.contains_key(k) {
                            let j = choose|j: int|
                                0 <= j < pre.bindings().len() && (#[trigger] pre.bindings()[j]).0
                                    == k;
                            assert(self.bindings()[j].0 == k);
                        } else if self@.contains_key(k) {
                            let j = choose|j: int|
                                0 <= j < self.bindings().len() && (#[trigger] self.bindings()[j]).0
                                    == k;
                            assert(pre.bindings()[j].0 == k);
                        }
                    }
                    assert forall|k: Seq<char>| #[trigger]
                        self@.contains_key(k) implies self@[k] == pre@.insert(name@, value)[k] by {
                        let j = choose|j: int|
                            0 <= j < self.bindings().len() && (#[trigger] self.bindings()[j]).0
                                == k;
                        self.lemma_view_at(j);
                        if j != i {
                            pre.lemma_view_at(j);
                        }
                    }
                    assert(self@ =~= pre@.insert(name@, value));
                }
                Some(prev)
            },
            None => {
                let e = Entry { name, key, value };
                entries.push(e);
                proof {
                    let nb = entries@.map_values(|e: Entry| (e.key@, e.value));
                    assert(nb =~= pre.bindings().push((name@, value)));
                    assert forall|a: int| 0 <= a < pre.bindings().len() implies #[trigger] pre.bindings()[a].0
                        != name@ by {
                        assert(pre.entries@[a].key@ != key@);
                    }
                    assert(distinct_names(pre.bindings()));
                    assert(distinct_names(nb));
                }
                *self = VarMap { entries };
                proof {
                    assert(self.bindings() =~= pre.bindings().push((name@, value)));
                    let n = pre.entries.len() as int;
                    assert(self.entries@[n].key@ == name@);
                    if pre@.contains_key(name@) {
                        let j = choose|j: int|
                            0 <= j < pre.bindings().len() && (#[trigger] pre.bindings()[j]).0
                                == name@;
                        assert(pre.entries@[j].key@ == name@);
                    }
                    assert forall|k: Seq<char>|
                        #![auto]
                        self@.contains_key(k) == pre@.insert(name@, value).contains_key(k) by {
                        if k == name@ {
                            assert(self.bindings()[n].0 == k);
                        } else if pre@.contains_key(k) {
                            let j = choose|j: int|
                                0 <= j < pre.bindings().len() && (#[trigger] pre.bindings()[j]).0
                                    == k;
                            assert(self.bindings()[j].0 == k);
                        } else if self@.contains_key(k) {
                            let j = choose|j: int|
                                0 <= j < self.bindings().len() && (#[trigger] self.bindings()[j]).0
                                    == k;
                            assert(pre.bindings()[j].0 == k);
                        }
                    }
                    assert forall|k: Seq<char>| #[trigger]
                        self@.contains_key(k) implies self@[k] == pre@.insert(name@, value)[k] by {
                        let j = choose|j: int|
                            0 <= j < self.bindings().len() && (#[trigger] self.bindings()[j]).0
                                == k;
                        self.lemma_view_at(j);
                        if j != n {
                            pre.lemma_view_at(j);
                        }
                    }
                    assert(self@ =~= pre@.insert(name@, value));
                }
                None
            },
        }
    }

    /// Number of bound names.
    pub fn len(&self) -> (n: usize)
        ensures
            n == self@.len(),
            n == self.bindings().len(),
    {
        proof {
            use_type_invariant(self);
            self.lemma_len();
        }
        self.entries.len()
    }

    /// Whether no name is bound.
    pub fn is_empty(&self) -> (b: bool)
        ensures
            b == (self@.len() == 0),
    {
        self.len() == 0
    }

    proof fn lemma_len(self)
        requires
            self.inv(),
        ensures
            self@.dom().finite(),
            self@.len() == self.bindings().len(),
    {
        let b = self.bindings();
        let ks = b.map_values(|p: (Seq<char>, bool)| p.0);
        assert(self@.dom() =~= ks.to_set()) by {
            assert forall|k: Seq<char>| #![auto] self@.dom().contains(k) == ks.to_set().contains(k) by {
                if self@.dom().contains(k) {
                    let j = choose|j: int| 0 <= j < b.len() && (#[trigger] b[j]).0 == k;
                    assert(ks[j] == k);
                }
                if ks.to_set().contains(k) {
                    let j = choose|j: int| 0 <= j < ks.len() && ks[j] == k;
                    assert(b[j].0 == k);
                }
            }
        }
        assert(ks.no_duplicates()) by {
            assert forall|i: int, j: int| 0 <= i < ks.len() && 0 <= j < ks.len() && i != j implies ks[i] != ks[j] by {
                assert(b[i].0 != b[j].0);
            }
        }
        ks.unique_seq_to_set();
    }

    /// The name of the `i`-th binding.
    pub fn name_at(&self, i: usize) -> (s: &str)
        requires
            i < self.bindings().len(),
        ensures
            s@ == self.bindings()[i as int].0,
    {
        proof {
            use_type_invariant(self);
        }
        self.entries[i].name.as_str()
    }

    /// The value of the `i`-th binding.
    pub fn value_at(&self, i: usize) -> (v: bool)
        requires
            i < self.bindings().len(),
        ensures
            v == self.bindings()[i as int].1,
    {
        self.entries[i].value
    }
}

impl VarMap {
    /// Every binding of `self` is also a binding of `other`.
    fn includes(&self, other: &VarMap) -> (r: bool)
        ensures
            r == forall|k: Seq<char>|
                #[trigger] self@.contains_key(k) ==> other@.contains_key(k) && other@[k] == self@[k],
    {
        proof {
            use_type_invariant(self);
            use_type_invariant(other);
        }
        let mut i: usize = 0;
        while i < self.entries.len()
            invariant
                self.inv(),
                other.inv(),
                i <= self.entries.len(),
                forall|j: int|
                    0 <= j < i ==> other@.contains_key(#[trigger] self.entries@[j].key@) && other@[self.entries@[j].key@]
                        == self.entries@[j].value,
            decreases self.entries.len() - i,
        {
            let key = &self.entries[i].key;
            proof {
                self.lemma_view_at(i as int);
                assert(key@.subrange(0, key@.len() as int) =~= key@);
            }
            match other.get_range(key, 0, key.len()) {
                Some(v) => {
                    if v != self.entries[i].value {
                        return false;
                    }
                },
                None => {
                    return false;
                },
            }
            i += 1;
        }
        proof {
            assert forall|k: Seq<char>| #[trigger] self@.contains_key(k) implies other@.contains_key(k)
                && other@[k] == self@[k] by {
                let j = choose|j: int| 0 <= j < self.bindings().len() && (#[trigger] self.bindings()[j]).0 == k;
                self.lemma_view_at(j);
                assert(self.entries@[j].key@ == k);
            }
        }
        true
    }
}

impl PartialEq for VarMap {
    fn eq(&self, other: &VarMap) -> (r: bool) {
        let r = self.includes(other) && other.includes(self);
        proof {
            if r {
                assert(self@ =~= other@);
            }
        }
        r
    }
}

impl vstd::std_specs::cmp::PartialEqSpecImpl for VarMap {
    open spec fn obeys_eq_spec() -> bool {
        true
    }

    open spec fn eq_spec(&self, other: &VarMap) -> bool {
        self@ == other@
    }
}

impl Eq for VarMap {

}

impl PartialEq for State {
    fn eq(&self, other: &State) -> (r: bool) {
        self.id == other.id && self.label == other.label && self.vars == other.vars && self.initial
            == other.initial
    }
}

impl vstd::std_specs::cmp::PartialEqSpecImpl for State {
    open spec fn obeys_eq_spec() -> bool {
        true
    }

    open spec fn eq_spec(&self, other: &State) -> bool {
        self.id == other.id && self.label@ == other.label@ && self.vars@ == other.vars@
            && self.initial == other.initial
    }
}

impl Eq for State {

}

/// A copy of `v`.
fn copy_chars(v: &Vec<char>) -> (r: Vec<char>)
    ensures
        r@ == v@,
{
    let mut r: Vec<char> = Vec::new();
    let mut i: usize = 0;
    while i < v.len()
        invariant
            i <= v.len(),
            r@ == v@.subrange(0, i as int),
        decreases v.len() - i,
    {
        r.push(v[i]);
        i += 1;
        assert(r@ =~= v@.subrange(0, i as int));
    }
    assert(r@ =~= v@);
    r
}

impl Clone for VarMap {
    fn clone(&self) -> (r: VarMap)
        ensures
            r@ == self@,
            r.bindings() == self.bindings(),
    {
        proof {
            use_type_invariant(self);
        }
        let mut entries: Vec<Entry> = Vec::new();
        let mut i: usize = 0;
        while i < self.entries.len()
            invariant
                self.inv(),
                i <= self.entries.len(),
                entries@.len() == i,
                forall|j: int|
                    0 <= j < i ==> (#[trigger] entries@[j]).name == self.entries@[j].name && entries@[j].key@
                        == self.entries@[j].key@ && entries@[j].value == self.entries@[j].value,
            decreases self.entries.len() - i,
        {
            let e = &self.entries[i];
            entries.push(Entry { name: e.name.clone(), key: copy_chars(&e.key), value: e.value });
            i += 1;
        }
        assert(entries@.map_values(|e: Entry| (e.key@, e.value)) =~= self.bindings());
        assert forall|j: int| 0 <= j < entries@.len() implies (#[trigger] entries@[j]).key@ == entries@[j].name@ by {
            assert(self.entries@[j].key@ == self.entries@[j].name@);
        }
        let r = VarMap { entries };
        r
    }
}

/// Two states with the same id, label, variables (in the same order) and flag.
pub open spec fn same_state(a: State, b: State) -> bool {
    &&& a.id == b.id
    &&& a.label == b.label
    &&& a.vars@ == b.vars@
    &&& a.vars.bindings() == b.vars.bindings()
    &&& a.initial == b.initial
}

impl Clone for State {
    fn clone(&self) -> (r: State)
        ensures
            same_state(r, *self),
    {
        State {
            id: self.id,
            label: self.label.clone(),
            vars: self.vars.clone(),
            initial: self.initial,
        }
    }
}

impl Clone for StateGraph {
    fn clone(&self) -> (r: StateGraph)
        ensures
            r@.edges == self@.edges,
            r@.initial == self@.initial,
            r@.states.len() == self@.states.len(),
            forall|i: int| 0 <= i < self@.states.len() ==> same_state(#[trigger] r@.states[i], self@.states[i]),
    {
        proof {
            use_type_invariant(self);
        }
        let mut states: Vec<State> = Vec::new();
        let mut i: usize = 0;
        while i < self.states.len()
            invariant
                self.inv(),
                i <= self.states.len(),
                states@.len() == i,
                forall|j: int| 0 <= j < i ==> same_state(#[trigger] states@[j], self.states@[j]),
            decreases self.states.len() - i,
        {
            states.push(self.states[i].clone());
            i += 1;
        }
        let edges = copy_edges(&self.edges);
        let initial = copy_ids(&self.initial);
        StateGraph { states, edges, initial }
    }
}

fn copy_edges(v: &Vec<(StateId, StateId)>) -> (r: Vec<(StateId, StateId)>)
    ensures
        r@ == v@,
{
    let mut r: Vec<(StateId, StateId)> = Vec::new();
    let mut i: usize = 0;
    while i < v.len()
        invariant
            i <= v.len(),
            r@ == v@.subrange(0, i as int),
        decreases v.len() - i,
    {
        r.push(v[i]);
        i += 1;
        assert(r@ =~= v@.subrange(0, i as int));
    }
    assert(r@ =~= v@);
    r
}

/// A copy of `v`.
pub fn copy_ids(v: &Vec<StateId>) -> (r: Vec<StateId>)
    ensures
        r@ == v@,
{
    let mut r: Vec<StateId> = Vec::new();
    let mut i: usize = 0;
    while i < v.len()
        invariant
            i <= v.len(),
            r@ == v@.subrange(0, i as int),
        decreases v.len() - i,
    {
        r.push(v[i]);
        i += 1;
        assert(r@ =~= v@.subrange(0, i as int));
    }
    assert(r@ =~= v@);
    r
}

impl Default for StateGraph {
    fn default() -> (g: StateGraph)
        ensures
            g@.states == Seq::<State>::empty(),
            g@.edges == Set::<(StateId, StateId)>::empty(),
            g@.initial == Set::<StateId>::empty(),
    {
        StateGraph::new()
    }
}

impl View for VarMap {
    type V = Map<Seq<char>, bool>;

    closed spec fn view(&self) -> Map<Seq<char>, bool> {
        bindings_to_map(self.bindings())
    }
}


/// One binding written out: `name=true` or `name=false`.
pub open spec fn binding_text(b: (Seq<char>, bool)) -> Seq<char> {
    b.0 + "="@ + (if b.1 {
        "true"@
    } else {
        "false"@
    })
}

/// The bindings written out, separated by `, `.
pub open spec fn join_bindings(bs: Seq<(Seq<char>, bool)>) -> Seq<char>
    decreases bs.len(),
{
    if bs.len() == 0 {
        Seq::empty()
    } else if bs.len() == 1 {
        binding_text(bs[0])
    } else {
        join_bindings(bs.drop_last()) + ", "@ + binding_text(bs.last())
    }
}

/// A state of the model.
#[derive(Debug)]
pub struct State {
    /// Unique identifier.
    pub id: StateId,
    /// Human-readable label.
    pub label: String,
    /// Boolean-valued state variables (atomic propositions).
    pub vars: VarMap,
    /// Whether this is an initial state.
    pub initial: bool,
}

impl State {
    /// A new, non-initial state with no variables.
    pub fn new(id: StateId, label: &str) -> (s: State)
        ensures
            s.id == id,
            s.label@ == label@,
            s.vars@ == Map::<Seq<char>, bool>::empty(),
            s.vars.bindings() == Seq::<(Seq<char>, bool)>::empty(),
            !s.initial,
    {
        State { id, label: label.to_owned(), vars: VarMap::new(), initial: false }
    }

    /// Sets a state variable.
    pub fn set_var(&mut self, name: &str, val: bool) -> (r: &mut Self)
        ensures
            r.id == old(self).id,
            r.label == old(self).label,
            r.initial == old(self).initial,
            r.vars@ == old(self).vars@.insert(name@, val),
            old(self).vars@.contains_key(name@) ==> exists|i: int|
                0 <= i < old(self).vars.bindings().len() && (#[trigger] old(self).vars.bindings()[i]).0
                    == name@ && r.vars.bindings() == old(self).vars.bindings().update(i, (name@, val)),
            !old(self).vars@.contains_key(name@) ==> r.vars.bindings() == old(self).vars.bindings().push(
                (name@, val),
            ),
            *final(self) == *final(r),
    {
        self.vars.insert(name.to_owned(), val);
        self
    }

    /// The value of a state variable, if it is set.
    pub fn get_var(&self, name: &str) -> (r: Option<bool>)
        ensures
            r == (if self.vars@.contains_key(name@) {
                Some(self.vars@[name@])
            } else {
                None::<bool>
            }),
    {
        match self.vars.get(name) {
            Some(v) => Some(*v),
            None => None,
        }
    }

    /// Whether every named variable is set to `true`.
    pub fn satisfies_all(&self, names: &[&str]) -> (r: bool)
        ensures
            r == forall|i: int|
                0 <= i < names@.len() ==> #[trigger] self.vars@.contains_key(names@[i]@)
                    && self.vars@[names@[i]@],
    {
        let mut i: usize = 0;
        while i < names.len()
            invariant
                i <= names@.len(),
                forall|j: int|
                    0 <= j < i ==> #[trigger] self.vars@.contains_key(names@[j]@)
                        && self.vars@[names@[j]@],
            decreases names@.len() - i,
        {
            match self.get_var(names[i]) {
                Some(true) => {},
                _ => {
                    return false;
                },
            }
            let ghost k = i as int;
            assert(self.vars@.contains_key(names@[k]@) && self.vars@[names@[k]@]);
            i += 1;
            assert forall|j: int| 0 <= j < i implies #[trigger] self.vars@.contains_key(names@[j]@)
                && self.vars@[names@[j]@] by {
                if j == k {
                    assert(self.vars@.contains_key(names@[j]@));
                    assert(self.vars@[names@[j]@]);
                } else {
                    assert(j < k);
                    assert(self.vars@.contains_key(names@[j]@));
                }
            }
        }
        true
    }

    /// The state written out: `label:{name=value, ...}`, bindings in insertion order.
    pub open spec fn spec_text(self) -> Seq<char> {
        self.label@ + ":{"@ + join_bindings(self.vars.bindings()) + "}"@
    }

    /// The state written out (see `spec_text`).
    pub fn to_text(&self) -> (s: String)
        ensures
            s@ == self.spec_text(),
    {
        let mut s = String::new();
        s.append(self.label.as_str());
        s.append(":{");
        let ghost head = s@;
        let n = self.vars.len();
        let mut i: usize = 0;
        while i < n
            invariant
                n == self.vars.bindings().len(),
                i <= n,
                s@ == head + join_bindings(self.vars.bindings().subrange(0, i as int)),
            decreases n - i,
        {
            let ghost bs = self.vars.bindings();
            if i > 0 {
                s.append(", ");
            }
            s.append(self.vars.name_at(i));
            s.append("=");
            if self.vars.value_at(i) {
                s.append("true");
            } else {
                s.append("false");
            }
            proof {
                let pre = bs.subrange(0, i as int);
                let cur = bs.subrange(0, i + 1);
                assert(cur.drop_last() =~= pre);
                assert(cur.last() == bs[i as int]);
                if i == 0 {
                    assert(pre =~= Seq::<(Seq<char>, bool)>::empty());
                }
            }
            i += 1;
        }
        assert(self.vars.bindings().subrange(0, n as int) =~= self.vars.bindings());
        s.append("}");
        s
    }

    /// Marks this state as initial.
    pub fn mark_initial(&mut self) -> (r: &mut Self)
        ensures
            r.id == old(self).id,
            r.label == old(self).label,
            r.vars == old(self).vars,
            r.initial,
            *final(self) == *final(r),
    {
        self.initial = true;
        self
    }
}


/// The variables that assigning `vars` in order to `m` gives (a later
/// assignment to a name wins).
pub open spec fn assign_all(m: Map<Seq<char>, bool>, vars: Seq<(&str, bool)>) -> Map<
    Seq<char>,
    bool,
>
    decreases vars.len(),
{
    if vars.len() == 0 {
        m
    } else {
        assign_all(m, vars.drop_last()).insert(vars.last().0@, vars.last().1)
    }
}

/// A directed graph of states with transitions.
#[derive(Debug)]
pub struct StateGraph {
    /// The state with id `i` at index `i`.
    states: Vec<State>,
    /// Transitions, each once, in the order they were added.
    edges: Vec<(StateId, StateId)>,
    /// Initial state ids, each once, in the order they were marked.
    initial: Vec<StateId>,
}

impl View for StateGraph {
    type V = GraphModel;

    closed spec fn view(&self) -> GraphModel {
        GraphModel {
            states: self.states@,
            edges: self.edges@.to_set(),
            initial: self.initial@.to_set(),
        }
    }
}

/// The ids that `ids` holds, each once, are exactly `set`.
pub open spec fn lists_set(ids: Seq<StateId>, set: Set<StateId>) -> bool {
    ids.no_duplicates() && ids.to_set() == set
}

impl StateGraph {
    #[verifier::type_invariant]
    spec fn inv(self) -> bool {
        &&& forall|i: int| 0 <= i < self.states.len() ==> (#[trigger] self.states@[i]).id == i
        &&& self.edges@.no_duplicates()
        &&& self.initial@.no_duplicates()
    }

    /// The model's transition and initial sets are finite.
    pub proof fn lemma_finite(self)
        ensures
            self@.edges.finite(),
            self@.initial.finite(),
    {
        self.edges@.lemma_cardinality_of_set();
        self.initial@.lemma_cardinality_of_set();
    }

    /// A new empty state graph.
    pub fn new() -> (g: StateGraph)
        ensures
            g@.states == Seq::<State>::empty(),
            g@.edges == Set::<(StateId, StateId)>::empty(),
            g@.initial == Set::<StateId>::empty(),
    {
        let g = StateGraph { states: Vec::new(), edges: Vec::new(), initial: Vec::new() };
        assert(g@.edges =~= Set::<(StateId, StateId)>::empty());
        assert(g@.initial =~= Set::<StateId>::empty());
        g
    }

    /// Moves the graph out of `self`, leaving an empty graph.
    fn take_parts(&mut self) -> (r: (Vec<State>, Vec<(StateId, StateId)>, Vec<StateId>))
        ensures
            r.0@ == old(self).states@,
            r.1@ == old(self).edges@,
            r.2@ == old(self).initial@,
            forall|i: int| 0 <= i < r.0@.len() ==> (#[trigger] r.0@[i]).id == i,
            r.1@.no_duplicates(),
            r.2@.no_duplicates(),
    {
        proof {
            use_type_invariant(&*self);
        }
        let mut g = StateGraph::new();
        std::mem::swap(self, &mut g);
        let StateGraph { states, edges, initial } = g;
        (states, edges, initial)
    }

    /// Adds a new state with the given label and no variables, returning its id
    /// (the number of states before the call).
    pub fn add_state(&mut self, label: &str) -> (id: StateId)
        requires
            old(self)@.states.len() < u32::MAX,
        ensures
            id == old(self)@.states.len(),
            final(self)@.states.len() == old(self)@.states.len() + 1,
            forall|i: int|
                0 <= i < old(self)@.states.len() ==> #[trigger] final(self)@.states[i] == old(
                    self,
                )@.states[i],
            final(self)@.states[id as int].id == id,
            final(self)@.states[id as int].label@ == label@,
            final(self)@.states[id as int].vars@ == Map::<Seq<char>, bool>::empty(),
            final(self)@.states[id as int].vars.bindings() == Seq::<(Seq<char>, bool)>::empty(),
            !final(self)@.states[id as int].initial,
            final(self)@.edges == old(self)@.edges,
            final(self)@.initial == old(self)@.initial,
    {
        let (mut states, edges, initial) = self.take_parts();
        let id = states.len() as StateId;
        states.push(State::new(id, label));
        *self = StateGraph { states, edges, initial };
        id
    }

    /// Adds a state with the given label and variables (assigned in order),
    /// returning its id.
    pub fn add_state_with_vars(&mut self, label: &str, vars: Vec<(&str, bool)>) -> (id: StateId)
        requires
            old(self)@.states.len() < u32::MAX,
        ensures
            id == old(self)@.states.len(),
            final(self)@.states.len() == old(self)@.states.len() + 1,
            forall|i: int|
                0 <= i < old(self)@.states.len() ==> #[trigger] final(self)@.states[i] == old(
                    self,
                )@.states[i],
            final(self)@.states[id as int].id == id,
            final(self)@.states[id as int].label@ == label@,
            final(self)@.states[id as int].vars@ == assign_all(
                Map::<Seq<char>, bool>::empty(),
                vars@,
            ),
            !final(self)@.states[id as int].initial,
            final(self)@.edges == old(self)@.edges,
            final(self)@.initial == old(self)@.initial,
    {
        let (mut states, edges, initial) = self.take_parts();
        let id = states.len() as StateId;
        let mut st = State::new(id, label);
        let mut i: usize = 0;
        while i < vars.len()
            invariant
                i <= vars@.len(),
                st.id == id,
                st.label@ == label@,
                !st.initial,
                st.vars@ == assign_all(Map::<Seq<char>, bool>::empty(), vars@.subrange(0, i as int)),
            decreases vars@.len() - i,
        {
            let (name, val) = vars[i];
            st.set_var(name, val);
            proof {
                let pre = vars@.subrange(0, i as int);
                assert(vars@.subrange(0, i + 1).drop_last() =~= pre);
            }
            i += 1;
        }
        assert(vars@.subrange(0, vars@.len() as int) =~= vars@);
        states.push(st);
        *self = StateGraph { states, edges, initial };
        id
    }

    /// Marks `id` as initial; if the state exists, its flag is set too.
    pub fn mark_initial(&mut self, id: StateId)
        ensures
            final(self)@.initial == old(self)@.initial.insert(id),
            final(self)@.edges == old(self)@.edges,
            final(self)@.states.len() == old(self)@.states.len(),
            forall|i: int|
                0 <= i < old(self)@.states.len() && i != id ==> #[trigger] final(self)@.states[i]
                    == old(self)@.states[i],
            old(self)@.has_state(id) ==> {
                let s = final(self)@.states[id as int];
                let o = old(self)@.states[id as int];
                s.id == o.id && s.label == o.label && s.vars == o.vars && s.initial
            },
    {
        let (mut states, edges, mut initial) = self.take_parts();
        if (id as usize) < states.len() {
            let mut st = states.remove(id as usize);
            st.initial = true;
            states.insert(id as usize, st);
        }
        let ghost init0 = initial@;
        if !contains_id(&initial, id) {
            initial.push(id);
            proof {
                lemma_push_to_set(init0, id);
            }
        } else {
            assert(init0.to_set().contains(id));
            assert(init0.to_set().insert(id) =~= init0.to_set());
        }
        *self = StateGraph { states, edges, initial };
    }

    /// Adds a transition from `from` to `to` (adding it again changes nothing).
    pub fn add_transition(&mut self, from: StateId, to: StateId)
        ensures
            final(self)@.edges == old(self)@.edges.insert((from, to)),
            final(self)@.states == old(self)@.states,
            final(self)@.initial == old(self)@.initial,
    {
        let (states, mut edges, initial) = self.take_parts();
        let mut i: usize = 0;
        let mut found = false;
        while i < edges.len()
            invariant
                i <= edges.len(),
                found == exists|j: int| 0 <= j < i && edges@[j] == (from, to),
            decreases edges.len() - i,
        {
            if edges[i].0 == from && edges[i].1 == to {
                found = true;
            }
            i += 1;
        }
        let ghost edges0 = edges@;
        if !found {
            edges.push((from, to));
            proof {
                lemma_push_to_set(edges0, (from, to));
            }
        } else {
            proof {
                let j = choose|j: int| 0 <= j < edges0.len() && edges0[j] == (from, to);
                assert(edges0.to_set().contains((from, to)));
                assert(edges0.to_set().insert((from, to)) =~= edges0.to_set());
            }
        }
        *self = StateGraph { states, edges, initial };
    }

    /// The state with this id, if there is one.
    pub fn get_state(&self, id: StateId) -> (r: Option<&State>)
        ensures
            r is Some <==> self@.has_state(id),
            r matches Some(s) ==> *s == self@.states[id as int],
    {
        if (id as usize) < self.states.len() {
            Some(&self.states[id as usize])
        } else {
            None
        }
    }

    /// All states, by increasing id.
    pub fn states(&self) -> (r: Vec<&State>)
        ensures
            r@.len() == self@.states.len(),
            forall|i: int| 0 <= i < r@.len() ==> *(#[trigger] r@[i]) == self@.states[i],
    {
        let mut r: Vec<&State> = Vec::new();
        let mut i: usize = 0;
        while i < self.states.len()
            invariant
                i <= self.states.len(),
                r@.len() == i,
                forall|j: int| 0 <= j < i ==> *(#[trigger] r@[j]) == self.states@[j],
            decreases self.states.len() - i,
        {
            r.push(&self.states[i]);
            i += 1;
        }
        r
    }

    /// The targets of the transitions out of `id`, each once.
    pub fn successors(&self, id: StateId) -> (r: Vec<StateId>)
        ensures
            lists_set(r@, self@.successors(id)),
    {
        proof {
            use_type_invariant(self);
        }
        let mut r: Vec<StateId> = Vec::new();
        let mut i: usize = 0;
        while i < self.edges.len()
            invariant
                i <= self.edges.len(),
                self.edges@.no_duplicates(),
                r@.no_duplicates(),
                forall|t: StateId|
                    r@.contains(t) <==> exists|j: int| 0 <= j < i && self.edges@[j] == (id, t),
            decreases self.edges.len() - i,
        {
            let e = self.edges[i];
            let ghost r0 = r@;
            if e.0 == id {
                proof {
                    if r@.contains(e.1) {
                        let j = choose|j: int| 0 <= j < i && self.edges@[j] == (id, e.1);
                        assert(self.edges@[j] == self.edges@[i as int]);
                    }
                }
                r.push(e.1);
            }
            i += 1;
            proof {
                assert forall|t: StateId|
                    r@.contains(t) <==> exists|j: int| 0 <= j < i && self.edges@[j] == (id, t) by {
                    if r@.contains(t) {
                        if r0.contains(t) {
                            let j = choose|j: int| 0 <= j < i - 1 && self.edges@[j] == (id, t);
                        } else {
                            let k = choose|k: int| 0 <= k < r@.len() && r@[k] == t;
                            assert(k == r0.len());
                            assert(self.edges@[i - 1] == (id, t));
                        }
                    }
                    if exists|j: int| 0 <= j < i && self.edges@[j] == (id, t) {
                        let j = choose|j: int| 0 <= j < i && self.edges@[j] == (id, t);
                        if j < i - 1 {
                            assert(r0.contains(t));
                            let k = choose|k: int| 0 <= k < r0.len() && r0[k] == t;
                            assert(r@[k] == t);
                        } else {
                            assert(r@[r@.len() - 1] == t);
                        }
                    }
                }
            }
        }
        proof {
            assert forall|t: StateId| #![auto] r@.to_set().contains(t) == self@.successors(id).contains(t) by {
                if self@.successors(id).contains(t) {
                    let j = choose|j: int| 0 <= j < self.edges@.len() && self.edges@[j] == (id, t);
                }
            }
            assert(r@.to_set() =~= self@.successors(id));
        }
        r
    }

    /// The sources of the transitions into `id`, each once.
    pub fn predecessors(&self, id: StateId) -> (r: Vec<StateId>)
        ensures
            lists_set(r@, self@.predecessors(id)),
    {
        proof {
            use_type_invariant(self);
        }
        let mut r: Vec<StateId> = Vec::new();
        let mut i: usize = 0;
        while i < self.edges.len()
            invariant
                i <= self.edges.len(),
                self.edges@.no_duplicates(),
                r@.no_duplicates(),
                forall|s: StateId|
                    r@.contains(s) <==> exists|j: int| 0 <= j < i && self.edges@[j] == (s, id),
            decreases self.edges.len() - i,
        {
            let e = self.edges[i];
            let ghost r0 = r@;
            if e.1 == id {
                proof {
                    if r@.contains(e.0) {
                        let j = choose|j: int| 0 <= j < i && self.edges@[j] == (e.0, id);
                        assert(self.edges@[j] == self.edges@[i as int]);
                    }
                }
                r.push(e.0);
            }
            i += 1;
            proof {
                assert forall|s: StateId|
                    r@.contains(s) <==> exists|j: int| 0 <= j < i && self.edges@[j] == (s, id) by {
                    if r@.contains(s) {
                        if r0.contains(s) {
                            let j = choose|j: int| 0 <= j < i - 1 && self.edges@[j] == (s, id);
                        } else {
                            let k = choose|k: int| 0 <= k < r@.len() && r@[k] == s;
                            assert(k == r0.len());
                            assert(self.edges@[i - 1] == (s, id));
                        }
                    }
                    if exists|j: int| 0 <= j < i && self.edges@[j] == (s, id) {
                        let j = choose|j: int| 0 <= j < i && self.edges@[j] == (s, id);
                        if j < i - 1 {
                            assert(r0.contains(s));
                            let k = choose|k: int| 0 <= k < r0.len() && r0[k] == s;
                            assert(r@[k] == s);
                        } else {
                            assert(r@[r@.len() - 1] == s);
                        }
                    }
                }
            }
        }
        proof {
            assert forall|s: StateId| #![auto] r@.to_set().contains(s) == self@.predecessors(id).contains(s) by {
                if self@.predecessors(id).contains(s) {
                    let j = choose|j: int| 0 <= j < self.edges@.len() && self.edges@[j] == (s, id);
                }
            }
            assert(r@.to_set() =~= self@.predecessors(id));
        }
        r
    }

    /// The initial state ids, each once.
    pub fn initial_states(&self) -> (r: Vec<StateId>)
        ensures
            lists_set(r@, self@.initial),
    {
        proof {
            use_type_invariant(self);
        }
        self.initial.clone()
    }

    /// Number of states.
    pub fn num_states(&self) -> (n: usize)
        ensures
            n == self@.states.len(),
    {
        self.states.len()
    }

    /// Number of transitions.
    pub fn num_transitions(&self) -> (n: usize)
        ensures
            n == self@.edges.len(),
    {
        proof {
            use_type_invariant(self);
            self.edges@.unique_seq_to_set();
        }
        self.edges.len()
    }

    /// Whether there is a transition from `from` to `to`.
    pub fn has_transition(&self, from: StateId, to: StateId) -> (b: bool)
        ensures
            b == self@.has_edge(from, to),
    {
        let mut i: usize = 0;
        while i < self.edges.len()
            invariant
                i <= self.edges.len(),
                forall|j: int| 0 <= j < i ==> self.edges@[j] != (from, to),
            decreases self.edges.len() - i,
        {
            if self.edges[i].0 == from && self.edges[i].1 == to {
                return true;
            }
            i += 1;
        }
        false
    }

    /// Whether a state with this id exists.
    pub fn has_state(&self, id: StateId) -> (b: bool)
        ensures
            b == self@.has_state(id),
    {
        (id as usize) < self.states.len()
    }

    /// All state ids, increasing.
    pub fn state_ids(&self) -> (r: Vec<StateId>)
        ensures
            r@.len() == self@.states.len(),
            forall|i: int| 0 <= i < r@.len() ==> r@[i] == i,
    {
        proof {
            use_type_invariant(self);
        }
        let mut r: Vec<StateId> = Vec::new();
        let mut i: usize = 0;
        while i < self.states.len()
            invariant
                i <= self.states.len(),
                r@.len() == i,
                forall|j: int| 0 <= j < self.states.len() ==> (#[trigger] self.states@[j]).id == j,
                forall|j: int| 0 <= j < i ==> r@[j] == j,
            decreases self.states.len() - i,
        {
            r.push(self.states[i].id);
            i += 1;
        }
        r
    }
}

/// Whether `ids` holds `id`.
pub fn contains_id(ids: &Vec<StateId>, id: StateId) -> (b: bool)
    ensures
        b == ids@.contains(id),
{
    let mut i: usize = 0;
    while i < ids.len()
        invariant
            i <= ids.len(),
            forall|j: int| 0 <= j < i ==> ids@[j] != id,
        decreases ids.len() - i,
    {
        if ids[i] == id {
            return true;
        }
        i += 1;
    }
    false
}

} // verus!
