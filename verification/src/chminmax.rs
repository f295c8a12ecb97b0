//! Clamp-style updates: replace a value when a challenger is smaller
//! (`chmin`) or larger (`chmax`), reporting whether anything changed.

use vstd::prelude::*;

verus! {

/// Change-min / change-max updates over an ordered value type.
pub trait ChMinMax: Sized {
    /// The strict order the updates compare with.
    spec fn spec_lt(a: Self, b: Self) -> bool;

    /// Replace `self` with `x` if `x` is smaller; report whether it was.
    fn chmin(&mut self, x: Self) -> (r: bool)
        ensures
            r == Self::spec_lt(x, *old(self)),
            *final(self) == if r {
                x
            } else {
                *old(self)
            },
    ;

    /// Replace `self` with `x` if `x` is larger; report whether it was.
    fn chmax(&mut self, x: Self) -> (r: bool)
        ensures
            r == Self::spec_lt(*old(self), x),
            *final(self) == if r {
                x
            } else {
                *old(self)
            },
    ;
}

impl ChMinMax for i64 {
    open spec fn spec_lt(a: i64, b: i64) -> bool {
        a < b
    }

    fn chmin(&mut self, x: i64) -> (r: bool) {
        if x < *self {
            *self = x;
            true
        } else {
            false
        }
    }

    fn chmax(&mut self, x: i64) -> (r: bool) {
        if *self < x {
            *self = x;
            true
        } else {
            false
        }
    }
}

impl ChMinMax for u64 {
    open spec fn spec_lt(a: u64, b: u64) -> bool {
        a < b
    }

    fn chmin(&mut self, x: u64) -> (r: bool) {
        if x < *self {
            *self = x;
            true
        } else {
            false
        }
    }

    fn chmax(&mut self, x: u64) -> (r: bool) {
        if *self < x {
            *self = x;
            true
        } else {
            false
        }
    }
}

impl ChMinMax for usize {
    open spec fn spec_lt(a: usize, b: usize) -> bool {
        a < b
    }

    fn chmin(&mut self, x: usize) -> (r: bool) {
        if x < *self {
            *self = x;
            true
        } else {
            false
        }
    }

    fn chmax(&mut self, x: usize) -> (r: bool) {
        if *self < x {
            *self = x;
            true
        } else {
            false
        }
    }
}

} // verus!
