//! Composition of pending actions along root-to-node paths.
//!
//! The dual and lazy trees keep a pending action at each node of the
//! implicit tree.  The effective action at a node is the composition of
//! all pending actions on its path to the root, innermost (deepest)
//! first.  These specs and lemmas describe how that composition reacts
//! to the pushes and merges the trees perform.

use vstd::prelude::*;

use crate::algebra::Monoid;
use crate::treemath::{
    lemma_on_path_bounds, lemma_on_path_strict, on_path,
};

verus! {

/// The composition of the pending actions on the path from node `t` up
/// to the root; deeper actions compose on the right (they apply first).
pub open spec fn path_comp<F: Monoid>(ms: Seq<F>, t: int) -> F
    decreases t,
{
    if t < 1 {
        F::spec_e()
    } else {
        F::spec_op(path_comp(ms, t / 2), ms[t])
    }
}

/// The composition of the pending actions strictly below `w` on the path
/// from `t` up to the root.
pub open spec fn path_comp_below<F: Monoid>(ms: Seq<F>, w: int, t: int) -> F
    decreases t,
{
    if t <= w || t < 1 {
        F::spec_e()
    } else {
        F::spec_op(path_comp_below(ms, w, t / 2), ms[t])
    }
}

/// Splitting the path composition at an ancestor `w` of `t`.
pub proof fn lemma_path_comp_split<F: Monoid>(ms: Seq<F>, w: int, t: int)
    requires
        on_path(t, w),
    ensures
        path_comp(ms, t) == F::spec_op(path_comp(ms, w), path_comp_below(ms, w, t)),
    decreases t,
{
    if t == w {
        F::lemma_identity(path_comp(ms, w));
    } else {
        lemma_on_path_strict(t, w);
        lemma_path_comp_split(ms, w, t / 2);
        F::lemma_assoc(path_comp(ms, w), path_comp_below(ms, w, t / 2), ms[t]);
        lemma_on_path_bounds(t, w);
    }
}

/// The path composition only reads entries on the path.
pub proof fn lemma_path_comp_frame<F: Monoid>(ms1: Seq<F>, ms2: Seq<F>, t: int)
    requires
        forall|u: int| #[trigger] on_path(t, u) ==> ms1[u] == ms2[u],
    ensures
        path_comp(ms1, t) == path_comp(ms2, t),
    decreases t,
{
    if t >= 1 {
        assert forall|u: int| #[trigger] on_path(t / 2, u) implies ms1[u] == ms2[u] by {
            lemma_on_path_bounds(t / 2, u);
            assert(on_path(t, u));
        }
        lemma_path_comp_frame(ms1, ms2, t / 2);
        assert(on_path(t, t));
    }
}

/// The partial composition below `w` only reads path entries above `w`.
pub proof fn lemma_path_comp_below_frame<F: Monoid>(ms1: Seq<F>, ms2: Seq<F>, w: int, t: int)
    requires
        forall|u: int| #[trigger] on_path(t, u) && u > w ==> ms1[u] == ms2[u],
    ensures
        path_comp_below(ms1, w, t) == path_comp_below(ms2, w, t),
    decreases t,
{
    if !(t <= w || t < 1) {
        assert forall|u: int| #[trigger] on_path(t / 2, u) && u > w implies ms1[u] == ms2[u] by {
            lemma_on_path_bounds(t / 2, u);
            assert(on_path(t, u));
        }
        lemma_path_comp_below_frame(ms1, ms2, w, t / 2);
        assert(on_path(t, t));
    }
}

/// Splitting the partial composition at an intermediate ancestor.
pub proof fn lemma_path_comp_below_split<F: Monoid>(ms: Seq<F>, a: int, b: int, t: int)
    requires
        on_path(t, b),
        on_path(b, a),
    ensures
        path_comp_below(ms, a, t) == F::spec_op(
            path_comp_below(ms, a, b),
            path_comp_below(ms, b, t),
        ),
    decreases t,
{
    lemma_on_path_bounds(b, a);
    lemma_on_path_bounds(t, b);
    if t == b {
        F::lemma_identity(path_comp_below(ms, a, b));
    } else {
        lemma_on_path_strict(t, b);
        lemma_path_comp_below_split(ms, a, b, t / 2);
        F::lemma_assoc(path_comp_below(ms, a, b), path_comp_below(ms, b, t / 2), ms[t]);
    }
}

/// A path whose entries are all the identity composes to the identity.
pub proof fn lemma_path_comp_clean<F: Monoid>(ms: Seq<F>, t: int)
    requires
        forall|u: int| #[trigger] on_path(t, u) ==> ms[u] == F::spec_e(),
    ensures
        path_comp(ms, t) == F::spec_e(),
    decreases t,
{
    if t < 1 {
    } else {
        assert forall|u: int| #[trigger] on_path(t / 2, u) implies ms[u] == F::spec_e() by {
            lemma_on_path_bounds(t / 2, u);
            assert(on_path(t, u));
        }
        lemma_path_comp_clean(ms, t / 2);
        assert(on_path(t, t));
        F::lemma_identity(F::spec_e());
    }
}

/// Pushing node `w`'s pending action into its two children leaves every
/// path composition unchanged, except at `w` itself.
pub proof fn lemma_push_preserves<F: Monoid>(ms: Seq<F>, ms2: Seq<F>, w: int, t: int)
    requires
        1 <= w,
        2 * w + 1 < ms.len(),
        t < ms.len(),
        ms2 == ms.update(w, F::spec_e()).update(2 * w, F::spec_op(ms[w], ms[2 * w])).update(
            2 * w + 1,
            F::spec_op(ms[w], ms[2 * w + 1]),
        ),
    ensures
        t != w ==> path_comp(ms2, t) == path_comp(ms, t),
        t == w ==> path_comp(ms2, t) == path_comp(ms, w / 2),
    decreases t,
{
    if t < 1 {
    } else if t == w {
        // ms2[w] is the identity, and the path above w is untouched.
        assert forall|u: int| #[trigger] on_path(w / 2, u) implies ms2[u] == ms[u] by {
            lemma_on_path_bounds(w / 2, u);
        }
        lemma_path_comp_frame(ms, ms2, w / 2);
        F::lemma_identity(path_comp(ms2, w / 2));
    } else if t == 2 * w || t == 2 * w + 1 {
        lemma_push_preserves(ms, ms2, w, w);
        assert(t / 2 == w);
        assert(ms2[t] == F::spec_op(ms[w], ms[t]));
        assert(path_comp(ms2, t) == F::spec_op(path_comp(ms2, w), ms2[t]));
        assert(path_comp(ms, t) == F::spec_op(path_comp(ms, w), ms[t]));
        assert(path_comp(ms, w) == F::spec_op(path_comp(ms, w / 2), ms[w]));
        F::lemma_assoc(path_comp(ms, w / 2), ms[w], ms[t]);
    } else {
        lemma_push_preserves(ms, ms2, w, t / 2);
        assert(t / 2 != w);
    }
}

/// Merging a new action `f` onto node `w` multiplies the composition of
/// every path through `w` by `f` on the outside, provided everything
/// strictly above `w` is clean; paths avoiding `w` are unchanged.
pub proof fn lemma_merge_at<F: Monoid>(ms: Seq<F>, ms2: Seq<F>, w: int, f: F, t: int)
    requires
        1 <= w < ms.len(),
        0 <= t < ms.len(),
        ms2 == ms.update(w, F::spec_op(f, ms[w])),
        forall|u: int| #[trigger] on_path(w, u) && u != w ==> ms[u] == F::spec_e(),
    ensures
        !on_path(t, w) ==> path_comp(ms2, t) == path_comp(ms, t),
        on_path(t, w) ==> path_comp(ms2, t) == F::spec_op(f, path_comp(ms, t)),
{
    if !on_path(t, w) {
        assert forall|u: int| #[trigger] on_path(t, u) implies ms2[u] == ms[u] by {
            lemma_on_path_bounds(t, u);
            assert(u != w);
        }
        lemma_path_comp_frame(ms, ms2, t);
    } else {
        // The composition above w is clean, so path_comp at w is just its entry.
        assert forall|u: int| #[trigger] on_path(w / 2, u) implies ms[u] == F::spec_e() by {
            lemma_on_path_bounds(w / 2, u);
            assert(on_path(w, u));
        }
        lemma_path_comp_clean(ms, w / 2);
        assert forall|u: int| #[trigger] on_path(w / 2, u) implies ms2[u] == ms[u] by {
            lemma_on_path_bounds(w / 2, u);
            assert(u != w);
        }
        lemma_path_comp_frame(ms, ms2, w / 2);
        // path_comp at w, before and after
        assert(path_comp(ms, w) == F::spec_op(F::spec_e(), ms[w]));
        assert(path_comp(ms2, w) == F::spec_op(F::spec_e(), F::spec_op(f, ms[w])));
        F::lemma_identity(ms[w]);
        F::lemma_identity(F::spec_op(f, ms[w]));
        // The part below w is untouched
        assert forall|u: int| #[trigger] on_path(t, u) && u > w implies ms2[u] == ms[u] by {
            lemma_on_path_bounds(t, u);
            assert(u != w);
        }
        lemma_path_comp_below_frame(ms, ms2, w, t);
        lemma_path_comp_split(ms, w, t);
        lemma_path_comp_split(ms2, w, t);
        F::lemma_assoc(f, ms[w], path_comp_below(ms, w, t));
    }
}

} // verus!
