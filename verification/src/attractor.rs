//! The points that pull the growth.

use crate::vec::Vector3;
use vstd::prelude::*;

verus! {

/// A point that pulls nearby branches until a branch comes close enough to
/// consume it.
#[derive(Clone, Copy, Debug, PartialEq, Eq, Structural)]
pub struct Attractor {
    /// Where the attractor stands.
    pub pos: Vector3,
    /// Set once a branch has come within the kill distance.
    pub reached: bool,
}

impl Attractor {
    /// A fresh attractor at `pos`.
    pub fn new(pos: Vector3) -> (r: Self)
        ensures
            r == (Attractor { pos, reached: false }),
    {
        Attractor { pos, reached: false }
    }
}

} // verus!
