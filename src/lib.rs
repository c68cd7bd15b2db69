//! Planning and execution engine for connecting houses to water sources on a
//! grid of cells of unknown hardness.
use vstd::prelude::*;

pub mod cost;
pub mod dsu;
pub mod grid;
pub mod heap;
pub mod judge;
pub mod noise;
pub mod rng;
pub mod solver;

pub use crate::grid::{Grid, Point};

verus! {

/// Side length of the square grid.
pub const N: usize = 200;

/// Absolute difference of two unsigned values.
pub fn abs_diff(x: u32, y: u32) -> (r: u32)
    ensures
        r as int == if x < y { y - x } else { x - y },
{
    if x < y {
        y - x
    } else {
        x - y
    }
}

/// Replacing a value by a smaller or a larger one, reporting whether it changed.
pub trait SetMinMax: Sized {
    /// `self` orders strictly before `v`.
    spec fn before(&self, v: &Self) -> bool;

    /// Replaces `self` by `v` when `v` is smaller.
    fn setmin(&mut self, v: Self) -> (r: bool)
        ensures
            r == v.before(old(self)),
            *final(self) == if r {
                v
            } else {
                *old(self)
            },
    ;

    /// Replaces `self` by `v` when `v` is larger.
    fn setmax(&mut self, v: Self) -> (r: bool)
        ensures
            r == old(self).before(&v),
            *final(self) == if r {
                v
            } else {
                *old(self)
            },
    ;
}

impl SetMinMax for u32 {
    open spec fn before(&self, v: &u32) -> bool {
        *self < *v
    }

    fn setmin(&mut self, v: u32) -> (r: bool) {
        if *self > v {
            *self = v;
            true
        } else {
            false
        }
    }

    fn setmax(&mut self, v: u32) -> (r: bool) {
        if *self < v {
            *self = v;
            true
        } else {
            false
        }
    }
}

impl SetMinMax for u64 {
    open spec fn before(&self, v: &u64) -> bool {
        *self < *v
    }

    fn setmin(&mut self, v: u64) -> (r: bool) {
        if *self > v {
            *self = v;
            true
        } else {
            false
        }
    }

    fn setmax(&mut self, v: u64) -> (r: bool) {
        if *self < v {
            *self = v;
            true
        } else {
            false
        }
    }
}

} // verus!
