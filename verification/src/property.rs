//! Property specifications, property results, and the condition language.

use vstd::prelude::*;
use vstd::string::StringExecFns;
use crate::state::{StateId, VarMap};
use crate::text::{chars_of, trim, find, trim_range, find_range, eq_range, lemma_trim_len, lemma_find_from_range};

verus! {

/// Result of checking a property.
#[derive(Clone, Debug, PartialEq, Eq)]
pub enum PropertyResult {
    /// The property holds.
    Satisfied,
    /// The property is violated; the trace is a counterexample (it may be empty).
    Violated(Vec<StateId>),
}

impl PropertyResult {
    /// Whether the property is satisfied.
    pub fn is_satisfied(&self) -> (b: bool)
        ensures
            b == (self is Satisfied),
    {
        match self {
            PropertyResult::Satisfied => true,
            PropertyResult::Violated(_) => false,
        }
    }

    /// Whether the property is violated.
    pub fn is_violated(&self) -> (b: bool)
        ensures
            b == (self is Violated),
    {
        match self {
            PropertyResult::Satisfied => false,
            PropertyResult::Violated(_) => true,
        }
    }

    /// The counterexample trace of a violation.
    pub fn counterexample(&self) -> (r: Option<&[StateId]>)
        ensures
            match self {
                PropertyResult::Violated(trace) => r is Some && r->0@ == trace@,
                PropertyResult::Satisfied => r is None,
            },
    {
        match self {
            PropertyResult::Violated(trace) => Some(trace.as_slice()),
            PropertyResult::Satisfied => None,
        }
    }
}

/// A property to check on the model.
#[derive(Clone, Debug)]
pub enum Property {
    /// Invariant: the condition must hold in every reachable state.
    Invariant { name: String, condition: String },
    /// Reachability: some state where the target variable is true must be reachable.
    Reachability { name: String, target: String },
    /// Liveness: the condition must eventually hold on every path.
    Eventually { name: String, condition: String },
    /// A property described in words only; checking it always succeeds.
    Custom { name: String, description: String },
}

impl Property {
    /// A safety (invariant) property.
    pub fn safety(name: &str, condition: &str) -> (p: Property)
        ensures
            p matches Property::Invariant { name: n, condition: c } && n@ == name@ && c@
                == condition@,
    {
        Property::Invariant { name: name.to_owned(), condition: condition.to_owned() }
    }

    /// A reachability property.
    pub fn reachability(name: &str, target: &str) -> (p: Property)
        ensures
            p matches Property::Reachability { name: n, target: t } && n@ == name@ && t@
                == target@,
    {
        Property::Reachability { name: name.to_owned(), target: target.to_owned() }
    }

    /// A liveness property.
    pub fn liveness(name: &str, condition: &str) -> (p: Property)
        ensures
            p matches Property::Eventually { name: n, condition: c } && n@ == name@ && c@
                == condition@,
    {
        Property::Eventually { name: name.to_owned(), condition: condition.to_owned() }
    }

    /// The property's name.
    pub open spec fn spec_name(self) -> Seq<char> {
        match self {
            Property::Invariant { name, .. } => name@,
            Property::Reachability { name, .. } => name@,
            Property::Eventually { name, .. } => name@,
            Property::Custom { name, .. } => name@,
        }
    }

    /// The property's name.
    pub fn name(&self) -> (s: &str)
        ensures
            s@ == self.spec_name(),
    {
        match self {
            Property::Invariant { name, .. } => name.as_str(),
            Property::Reachability { name, .. } => name.as_str(),
            Property::Eventually { name, .. } => name.as_str(),
            Property::Custom { name, .. } => name.as_str(),
        }
    }

    /// The property written out: `AG(cond) [name]`, `EF(target) [name]`,
    /// `AF(cond) [name]`, or `description [name]`.
    pub open spec fn spec_text(self) -> Seq<char> {
        match self {
            Property::Invariant { name, condition } => "AG("@ + condition@ + ") ["@ + name@ + "]"@,
            Property::Reachability { name, target } => "EF("@ + target@ + ") ["@ + name@ + "]"@,
            Property::Eventually { name, condition } => "AF("@ + condition@ + ") ["@ + name@ + "]"@,
            Property::Custom { name, description } => description@ + " ["@ + name@ + "]"@,
        }
    }

    /// The property written out (see `spec_text`).
    pub fn to_text(&self) -> (s: String)
        ensures
            s@ == self.spec_text(),
    {
        let mut s = String::new();
        match self {
            Property::Invariant { name, condition } => {
                s.append("AG(");
                s.append(condition.as_str());
                s.append(") [");
                s.append(name.as_str());
                s.append("]");
            },
            Property::Reachability { name, target } => {
                s.append("EF(");
                s.append(target.as_str());
                s.append(") [");
                s.append(name.as_str());
                s.append("]");
            },
            Property::Eventually { name, condition } => {
                s.append("AF(");
                s.append(condition.as_str());
                s.append(") [");
                s.append(name.as_str());
                s.append("]");
            },
            Property::Custom { name, description } => {
                s.append(description.as_str());
                s.append(" [");
                s.append(name.as_str());
                s.append("]");
            },
        }
        s
    }
}

/// Safety property checker: a predicate over state variables.
pub type SafetyProp = fn(&VarMap) -> bool;

/// Liveness property checker: checks that a condition eventually holds on a trace.
pub type LivenessProp = fn(&[&VarMap]) -> bool;

/// `"NOT "`
pub open spec fn not_word() -> Seq<char> {
    seq!['N', 'O', 'T', ' ']
}

/// `" AND "`
pub open spec fn and_word() -> Seq<char> {
    seq![' ', 'A', 'N', 'D', ' ']
}

/// `" OR "`
pub open spec fn or_word() -> Seq<char> {
    seq![' ', 'O', 'R', ' ']
}

/// The value of a condition under the given variables.  After trimming white
/// space: a condition that starts with `NOT ` is the negation of the rest; else
/// one that contains ` AND ` is the conjunction of the parts around its first
/// occurrence; else one that contains ` OR ` is the disjunction of the parts
/// around its first occurrence; else it is a variable name, true only when that
/// variable is set to `true`.
pub open spec fn eval_cond(cond: Seq<char>, vars: Map<Seq<char>, bool>) -> bool
    decreases cond.len(),
{
    let c = trim(cond);
    proof {
        lemma_trim_len(cond);
        lemma_find_from_range(c, and_word(), 0);
        lemma_find_from_range(c, or_word(), 0);
    }
    if c.len() >= 4 && c.subrange(0, 4) == not_word() {
        !eval_cond(c.subrange(4, c.len() as int), vars)
    } else if find(c, and_word()) >= 0 {
        let i = find(c, and_word());
        eval_cond(c.subrange(0, i), vars) && eval_cond(c.subrange(i + 5, c.len() as int), vars)
    } else if find(c, or_word()) >= 0 {
        let i = find(c, or_word());
        eval_cond(c.subrange(0, i), vars) || eval_cond(c.subrange(i + 4, c.len() as int), vars)
    } else {
        vars.contains_key(c) && vars[c]
    }
}

/// Evaluates a condition string against state variables: a variable name,
/// `NOT cond`, `a AND b` or `a OR b` (see `eval_cond` for how it is read).
pub fn eval_condition(condition: &str, vars: &VarMap) -> (b: bool)
    ensures
        b == eval_cond(condition@, vars@),
{
    let c = chars_of(condition);
    let not_pat: Vec<char> = vec!['N', 'O', 'T', ' '];
    let and_pat: Vec<char> = vec![' ', 'A', 'N', 'D', ' '];
    let or_pat: Vec<char> = vec![' ', 'O', 'R', ' '];
    assert(not_pat@ =~= not_word());
    assert(and_pat@ =~= and_word());
    assert(or_pat@ =~= or_word());
    assert(c@.subrange(0, c@.len() as int) =~= c@);
    eval_range(&c, 0, c.len(), vars, &not_pat, &and_pat, &or_pat)
}

fn eval_range(
    c: &Vec<char>,
    lo: usize,
    hi: usize,
    vars: &VarMap,
    not_pat: &Vec<char>,
    and_pat: &Vec<char>,
    or_pat: &Vec<char>,
) -> (b: bool)
    requires
        lo <= hi <= c.len(),
        not_pat@ == not_word(),
        and_pat@ == and_word(),
        or_pat@ == or_word(),
    ensures
        b == eval_cond(c@.subrange(lo as int, hi as int), vars@),
    decreases hi - lo,
{
    let ghost s = c@.subrange(lo as int, hi as int);
    let (a, z) = trim_range(c, lo, hi);
    let ghost t = c@.subrange(a as int, z as int);
    assert(t == trim(s));
    if z - a >= 4 && eq_range(not_pat, c, a, a + 4) {
        assert(t.subrange(0, 4) =~= c@.subrange(a as int, a + 4));
        assert(t.subrange(4, t.len() as int) =~= c@.subrange(a + 4, z as int));
        return !eval_range(c, a + 4, z, vars, not_pat, and_pat, or_pat);
    }
    assert(!(t.len() >= 4 && t.subrange(0, 4) == not_word())) by {
        if t.len() >= 4 {
            assert(t.subrange(0, 4) =~= c@.subrange(a as int, a + 4));
        }
    }
    match find_range(c, a, z, and_pat) {
        Some(i) => {
            assert(t.subrange(0, i - a) =~= c@.subrange(a as int, i as int));
            assert(t.subrange(i - a + 5, t.len() as int) =~= c@.subrange(i + 5, z as int));
            let l = eval_range(c, a, i, vars, not_pat, and_pat, or_pat);
            let r = eval_range(c, i + 5, z, vars, not_pat, and_pat, or_pat);
            return l && r;
        },
        None => {},
    }
    match find_range(c, a, z, or_pat) {
        Some(i) => {
            assert(t.subrange(0, i - a) =~= c@.subrange(a as int, i as int));
            assert(t.subrange(i - a + 4, t.len() as int) =~= c@.subrange(i + 4, z as int));
            let l = eval_range(c, a, i, vars, not_pat, and_pat, or_pat);
            let r = eval_range(c, i + 4, z, vars, not_pat, and_pat, or_pat);
            return l || r;
        },
        None => {},
    }
    match vars.get_range(c, a, z) {
        Some(v) => v,
        None => false,
    }
}

} // verus!
