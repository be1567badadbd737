//! Labeled transitions with optional guards.

use vstd::prelude::*;
use crate::state::{StateId, VarMap};

verus! {

/// A labeled transition between states.
#[derive(Clone, Debug, PartialEq, Eq)]
pub struct Transition {
    /// Source state.
    pub from: StateId,
    /// Target state.
    pub to: StateId,
    /// Optional guard: the name of a variable that must be true.
    pub guard: Option<String>,
    /// Label of the transition (empty when none was given).
    pub label: String,
}

/// Whether a guard lets a transition fire under the given variables: no guard
/// always does; a guard does when its variable is set to `true`.
pub open spec fn guard_holds(guard: Option<Seq<char>>, vars: Map<Seq<char>, bool>) -> bool {
    match guard {
        Some(g) => vars.contains_key(g) && vars[g],
        None => true,
    }
}

impl Transition {
    /// The guard's name, as characters.
    pub open spec fn guard_name(self) -> Option<Seq<char>> {
        match self.guard {
            Some(g) => Some(g@),
            None => None,
        }
    }

    /// An unguarded, unlabeled transition.
    pub fn new(from: StateId, to: StateId) -> (t: Transition)
        ensures
            t.from == from,
            t.to == to,
            t.guard is None,
            t.label@ == Seq::<char>::empty(),
    {
        Transition { from, to, guard: None, label: String::new() }
    }

    /// An unguarded transition with a label.
    pub fn labeled(from: StateId, to: StateId, label: &str) -> (t: Transition)
        ensures
            t.from == from,
            t.to == to,
            t.guard is None,
            t.label@ == label@,
    {
        Transition { from, to, guard: None, label: label.to_owned() }
    }

    /// An unlabeled transition guarded by the variable `guard`.
    pub fn guarded(from: StateId, to: StateId, guard: &str) -> (t: Transition)
        ensures
            t.from == from,
            t.to == to,
            t.guard_name() == Some(guard@),
            t.label@ == Seq::<char>::empty(),
    {
        Transition { from, to, guard: Some(guard.to_owned()), label: String::new() }
    }

    /// Whether this transition fires under the given variable values.
    pub fn fires(&self, vars: &VarMap) -> (b: bool)
        ensures
            b == guard_holds(self.guard_name(), vars@),
    {
        match &self.guard {
            Some(g) => match vars.get(g.as_str()) {
                Some(v) => *v,
                None => false,
            },
            None => true,
        }
    }

    /// Whether this transition leaves `state`.
    pub fn is_from(&self, state: StateId) -> (b: bool)
        ensures
            b == (self.from == state),
    {
        self.from == state
    }

    /// Whether this transition enters `state`.
    pub fn is_to(&self, state: StateId) -> (b: bool)
        ensures
            b == (self.to == state),
    {
        self.to == state
    }
}

} // verus!
