//! Facts about sequences and the sets of their elements.

use vstd::prelude::*;

verus! {

/// Pushing onto a sequence adds the value to its set.
pub proof fn lemma_push_to_set<A>(s: Seq<A>, v: A)
    ensures
        s.push(v).to_set() == s.to_set().insert(v),
{
    assert forall|x: A| #![auto] s.push(v).to_set().contains(x) == s.to_set().insert(v).contains(x) by {
        if s.push(v).contains(x) && x != v {
            let k = choose|k: int| 0 <= k < s.push(v).len() && s.push(v)[k] == x;
            assert(s[k] == x);
        }
        if s.contains(x) {
            let k = choose|k: int| 0 <= k < s.len() && s[k] == x;
            assert(s.push(v)[k] == x);
        }
        if x == v {
            assert(s.push(v)[s.len() as int] == x);
        }
    }
    assert(s.push(v).to_set() =~= s.to_set().insert(v));
}

/// The elements of `s[a..c]` are those of `s[a..b]` and of `s[b..c]`; without
/// duplicates in `s`, the two parts share none.
pub proof fn lemma_subrange_split<A>(s: Seq<A>, a: int, b: int, c: int)
    requires
        0 <= a <= b <= c <= s.len(),
    ensures
        s.subrange(a, c).to_set() == s.subrange(a, b).to_set().union(s.subrange(b, c).to_set()),
        s.no_duplicates() ==> s.subrange(a, b).to_set().disjoint(s.subrange(b, c).to_set()),
{
    let l = s.subrange(a, b);
    let r = s.subrange(b, c);
    let w = s.subrange(a, c);
    assert forall|x: A| #![auto] w.to_set().contains(x) == l.to_set().union(r.to_set()).contains(x) by {
        if w.contains(x) {
            let k = choose|k: int| 0 <= k < w.len() && w[k] == x;
            if k < b - a {
                assert(l[k] == x);
            } else {
                assert(r[k - (b - a)] == x);
            }
        }
        if l.contains(x) {
            let k = choose|k: int| 0 <= k < l.len() && l[k] == x;
            assert(w[k] == x);
        }
        if r.contains(x) {
            let k = choose|k: int| 0 <= k < r.len() && r[k] == x;
            assert(w[k + (b - a)] == x);
        }
    }
    assert(w.to_set() =~= l.to_set().union(r.to_set()));
    if s.no_duplicates() {
        assert forall|x: A| l.to_set().contains(x) implies !r.to_set().contains(x) by {
            let k1 = choose|k: int| 0 <= k < l.len() && l[k] == x;
            if r.contains(x) {
                let k2 = choose|k: int| 0 <= k < r.len() && r[k] == x;
                assert(s[a + k1] == s[b + k2]);
            }
        }
    }
}

/// A prefix of `s` extended by one element.
pub proof fn lemma_subrange_push<A>(s: Seq<A>, a: int, b: int)
    requires
        0 <= a <= b < s.len(),
    ensures
        s.subrange(a, b + 1).to_set() == s.subrange(a, b).to_set().insert(s[b]),
        s.no_duplicates() ==> !s.subrange(a, b).to_set().contains(s[b]),
{
    assert(s.subrange(a, b + 1) =~= s.subrange(a, b).push(s[b]));
    lemma_push_to_set(s.subrange(a, b), s[b]);
    if s.no_duplicates() && s.subrange(a, b).contains(s[b]) {
        let k = choose|k: int| 0 <= k < b - a && s.subrange(a, b)[k] == s[b];
        assert(s[a + k] == s[b]);
    }
}

/// A sequence without duplicates is no longer than a finite set that holds its elements.
pub proof fn lemma_no_dup_len_bound<A>(s: Seq<A>, bound: Set<A>)
    requires
        s.no_duplicates(),
        bound.finite(),
        s.to_set().subset_of(bound),
    ensures
        s.len() <= bound.len(),
{
    s.unique_seq_to_set();
    vstd::set_lib::lemma_len_subset(s.to_set(), bound);
}

} // verus!
