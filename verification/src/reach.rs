//! Reachability along a step relation, without naming the path.
//!
//! `b` is reachable from `a` when every set that holds `a` and that no step leaves holds `b` too.
//! This is the reflexive and transitive closure of the relation, in the form that the proofs
//! about conductors and about grouped terminals need.

use vstd::prelude::*;

verus! {

/// No step of the relation leads out of `t`.
pub open spec fn closed_under<A>(t: Set<A>, step: spec_fn(A, A) -> bool) -> bool {
    forall|p: A, q: A| t.contains(p) && #[trigger] step(p, q) ==> t.contains(q)
}

/// `b` can be reached from `a` in zero or more steps.
pub open spec fn reaches<A>(step: spec_fn(A, A) -> bool, a: A, b: A) -> bool {
    forall|t: Set<A>| #[trigger] closed_under(t, step) && t.contains(a) ==> t.contains(b)
}

/// The relation can be walked in both directions.
pub open spec fn two_way<A>(step: spec_fn(A, A) -> bool) -> bool {
    forall|p: A, q: A| #[trigger] step(p, q) ==> step(q, p)
}

/// Reachability is transitive.
pub proof fn lemma_reaches_trans<A>(step: spec_fn(A, A) -> bool, a: A, b: A, c: A)
    requires
        reaches(step, a, b),
        reaches(step, b, c),
    ensures
        reaches(step, a, c),
{
    assert forall|t: Set<A>| #[trigger] closed_under(t, step) && t.contains(a) implies t.contains(
        c,
    ) by {
        assert(t.contains(b));
    }
}

/// One step is a way of reaching.
pub proof fn lemma_reaches_step<A>(step: spec_fn(A, A) -> bool, a: A, b: A)
    requires
        step(a, b),
    ensures
        reaches(step, a, b),
{
}

/// Over a two-way relation reachability is symmetric.
pub proof fn lemma_reaches_sym<A>(step: spec_fn(A, A) -> bool, a: A, b: A)
    requires
        two_way(step),
        reaches(step, a, b),
    ensures
        reaches(step, b, a),
{
    assert forall|t: Set<A>| #[trigger] closed_under(t, step) && t.contains(b) implies t.contains(
        a,
    ) by {
        if !t.contains(a) {
            let rest = t.complement();
            assert(closed_under(rest, step)) by {
                assert forall|p: A, q: A| rest.contains(p) && #[trigger] step(p, q) implies rest.contains(
                    q,
                ) by {
                    assert(step(q, p));
                }
            }
            assert(rest.contains(a));
            assert(rest.contains(b));
        }
    }
}

/// What one relation allows, a relation with more steps allows as well.
pub proof fn lemma_reaches_mono<A>(
    less: spec_fn(A, A) -> bool,
    more: spec_fn(A, A) -> bool,
    a: A,
    b: A,
)
    requires
        forall|p: A, q: A| #[trigger] less(p, q) ==> more(p, q),
        reaches(less, a, b),
    ensures
        reaches(more, a, b),
{
    assert forall|t: Set<A>| #[trigger] closed_under(t, more) && t.contains(a) implies t.contains(
        b,
    ) by {
        assert(closed_under(t, less));
    }
}

} // verus!
