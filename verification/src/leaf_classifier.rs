//! Which branches bear leaves.

use vstd::prelude::*;

verus! {

/// The rule that decides whether a branch bears leaves.
#[derive(Copy, Clone, Debug, PartialEq, Eq, Structural)]
pub enum LeafClassifier {
    /// A branch without children bears leaves.
    LastBranch,
    /// A branch of any generation but that of the trunk bears leaves.
    NonRootBranch,
}

} // verus!
