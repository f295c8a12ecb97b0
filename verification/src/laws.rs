//! The algebraic laws the containers rest on, restated as standalone
//! theorems over the trait specifications.

use vstd::prelude::*;

use crate::algebra::Monoid;
use crate::segtree::dual::MonoidAction;
use crate::segtree::lazy::Action;

verus! {

/// Monoid laws: the operator is associative and the identity element is
/// neutral on both sides.
pub proof fn monoid_laws<T: Monoid>(x: T, y: T, z: T)
    ensures
        T::spec_op(T::spec_op(x, y), z) == T::spec_op(x, T::spec_op(y, z)),
        T::spec_op(T::spec_e(), x) == x,
        T::spec_op(x, T::spec_e()) == x,
{
    T::lemma_assoc(x, y, z);
    T::lemma_identity(x);
}

/// Action laws for the lazy tree: an action distributes over the
/// aggregate operator, and acting twice is acting once with the
/// composition (the later action composed on the left).
pub proof fn action_laws<S: Action<F>, F: Monoid>(x: S, y: S, f: F, g: F)
    ensures
        S::spec_apply(S::spec_op(x, y), f) == S::spec_op(S::spec_apply(x, f), S::spec_apply(y, f)),
        S::spec_apply(S::spec_apply(x, f), g) == S::spec_apply(x, F::spec_op(g, f)),
        S::spec_apply(x, F::spec_e()) == x,
{
    S::lemma_apply_distributes(x, y, f);
    S::lemma_apply_compose(x, f, g);
    S::lemma_apply_identity(x);
}

/// Action laws for the dual tree: acting twice is acting once with the
/// composition, and the identity action does nothing.
pub proof fn point_action_laws<T: MonoidAction>(x: T::X, f: T, g: T)
    ensures
        T::spec_apply(T::spec_apply(x, f), g) == T::spec_apply(x, T::spec_op(g, f)),
        T::spec_apply(x, T::spec_e()) == x,
{
    T::lemma_apply_compose(x, f, g);
    T::lemma_apply_identity(x);
}

/// Idempotence of push-down: pushing a node whose pending action is
/// already the identity changes neither the aggregates nor the pending
/// actions.  Since a push always leaves the identity behind, pushing
/// the same node twice with no intervening mutation is a no-op the
/// second time.
pub proof fn push_idempotent<S: Action<F>, F: Monoid>(vals: Seq<S>, ms: Seq<F>, w: int)
    requires
        1 <= w,
        2 * w + 1 < ms.len(),
        2 * w + 1 < vals.len(),
        ms[w] == F::spec_e(),
    ensures
        ms.update(w, F::spec_e()).update(2 * w, F::spec_op(ms[w], ms[2 * w])).update(
            2 * w + 1,
            F::spec_op(ms[w], ms[2 * w + 1]),
        ) == ms,
        vals.update(2 * w, S::spec_apply(vals[2 * w], ms[w])).update(
            2 * w + 1,
            S::spec_apply(vals[2 * w + 1], ms[w]),
        ) == vals,
{
    F::lemma_identity(ms[2 * w]);
    F::lemma_identity(ms[2 * w + 1]);
    S::lemma_apply_identity(vals[2 * w]);
    S::lemma_apply_identity(vals[2 * w + 1]);
    assert(ms.update(w, F::spec_e()).update(2 * w, F::spec_op(ms[w], ms[2 * w])).update(
        2 * w + 1,
        F::spec_op(ms[w], ms[2 * w + 1]),
    ) =~= ms);
    assert(vals.update(2 * w, S::spec_apply(vals[2 * w], ms[w])).update(
        2 * w + 1,
        S::spec_apply(vals[2 * w + 1], ms[w]),
    ) =~= vals);
}

} // verus!
