//! The nodes of the skeleton.

use crate::leaf_classifier::LeafClassifier;
use crate::vec::Vector3;
use vstd::prelude::*;

verus! {

/// One node of the skeleton: the far end of the segment that leads to it
/// from its parent.
#[derive(Clone, Copy, Debug, PartialEq, Eq)]
pub struct Branch {
    /// Where the branch ends.
    pub pos: Vector3,
    /// The index of the parent in the skeleton; the root has none.
    pub parent_index: Option<usize>,
    /// The direction of growth; during a growth step the pulls of the
    /// attractors are added to it.
    pub dir: Vector3,
    /// The direction the branch was made with.
    pub original_dir: Vector3,
    /// How many attractors pull this branch in the current growth step.
    pub attractors_count: usize,
    /// How many branches have this one as their parent.
    pub child_count: usize,
    /// How many attraction-driven branchings lie between the trunk and
    /// this branch.
    pub generation: usize,
}

impl Branch {
    /// The branch that grows out of this one, which stands at `index`:
    /// `branch_len` along the direction of growth.
    pub open spec fn sprout(
        self,
        index: usize,
        branch_len: i64,
        is_new_generation: bool,
    ) -> Branch {
        Branch {
            pos: self.pos.advanced_spec(self.dir, branch_len),
            parent_index: Some(index),
            dir: self.dir,
            original_dir: self.dir,
            attractors_count: 0,
            child_count: 0,
            generation: if is_new_generation {
                (self.generation + 1) as usize
            } else {
                self.generation
            },
        }
    }

    /// Makes the branch that grows out of this one, which stands at
    /// `index`.
    pub fn next(&self, index: usize, branch_len: i64, is_new_generation: bool) -> (r: Self)
        requires
            is_new_generation ==> self.generation < usize::MAX,
        ensures
            r == self.sprout(index, branch_len, is_new_generation),
            r.pos.in_world(),
    {
        let mut generation: usize = self.generation;
        if is_new_generation {
            generation += 1;
        }
        Branch {
            pos: self.pos.advanced(self.dir, branch_len),
            parent_index: Some(index),
            dir: self.dir,
            original_dir: self.dir,
            attractors_count: 0,
            child_count: 0,
            generation,
        }
    }

    /// Whether the branch bears leaves under `classifier`.
    pub open spec fn bears_leaves(self, classifier: LeafClassifier) -> bool {
        match classifier {
            LeafClassifier::LastBranch => self.child_count == 0,
            LeafClassifier::NonRootBranch => self.generation != 0,
        }
    }

    /// Whether the branch bears leaves under `classifier`.
    pub fn is_leaf(&self, classifier: &LeafClassifier) -> (r: bool)
        ensures
            r == self.bears_leaves(*classifier),
    {
        match classifier {
            LeafClassifier::LastBranch => self.child_count == 0,
            LeafClassifier::NonRootBranch => self.generation != 0,
        }
    }

    /// Forgets the pulls of the finished growth step.
    pub fn reset(&mut self)
        ensures
            *final(self) == (Branch {
                attractors_count: 0,
                dir: old(self).original_dir,
                ..*old(self)
            }),
    {
        self.attractors_count = 0;
        self.dir = self.original_dir;
    }
}

} // verus!
