//! The lengths that steer the growth.

use crate::error::ConfigurationError;
use vstd::prelude::*;

verus! {

/// The largest length, in units, that a configuration may hold.
pub const LENGTH_LIMIT: i64 = 1_000_000_000;

/// The growth lengths, in units.
#[derive(Clone, Copy, Debug, PartialEq, Eq, Structural)]
pub struct AlgorithmSettings {
    /// An attractor closer than this to a branch is consumed.
    pub kill_distance: i64,
    /// The length of one grown segment.
    pub branch_len: i64,
    /// An attractor farther than this from a branch does not pull it.
    pub leaf_attraction_dist: i64,
    /// The trunk is extended until it is at least this high.
    pub min_trunk_height: i64,
}

impl AlgorithmSettings {
    /// The first fault of the settings, if they have one.
    pub open spec fn fault(self) -> Option<ConfigurationError> {
        if self.kill_distance <= 0 || self.branch_len <= 0 || self.leaf_attraction_dist <= 0
            || self.min_trunk_height <= 0 {
            Some(ConfigurationError::NonPositiveLength)
        } else if self.kill_distance > LENGTH_LIMIT || self.branch_len > LENGTH_LIMIT
            || self.leaf_attraction_dist > LENGTH_LIMIT || self.min_trunk_height > LENGTH_LIMIT {
            Some(ConfigurationError::LengthOutOfRange)
        } else if self.kill_distance >= self.leaf_attraction_dist {
            Some(ConfigurationError::KillDistanceNotBelowAttraction)
        } else {
            None
        }
    }

    /// All four lengths are positive and at most `LENGTH_LIMIT`, and the
    /// kill distance is below the attraction distance.
    pub open spec fn valid(self) -> bool {
        self.fault() is None
    }

    /// Accepts the settings or names their first fault.
    pub fn validate(&self) -> (r: Result<(), ConfigurationError>)
        ensures
            r is Ok <==> self.valid(),
            r matches Err(e) ==> self.fault() == Some(e),
    {
        if self.kill_distance <= 0 || self.branch_len <= 0 || self.leaf_attraction_dist <= 0
            || self.min_trunk_height <= 0 {
            Err(ConfigurationError::NonPositiveLength)
        } else if self.kill_distance > LENGTH_LIMIT || self.branch_len > LENGTH_LIMIT
            || self.leaf_attraction_dist > LENGTH_LIMIT || self.min_trunk_height > LENGTH_LIMIT {
            Err(ConfigurationError::LengthOutOfRange)
        } else if self.kill_distance >= self.leaf_attraction_dist {
            Err(ConfigurationError::KillDistanceNotBelowAttraction)
        } else {
            Ok(())
        }
    }
}

impl Default for AlgorithmSettings {
    fn default() -> (r: Self)
        ensures
            r == (AlgorithmSettings {
                kill_distance: 300,
                branch_len: 300,
                leaf_attraction_dist: 5000,
                min_trunk_height: 1000,
            }),
            r.valid(),
    {
        AlgorithmSettings {
            kill_distance: 300,
            branch_len: 300,
            leaf_attraction_dist: 5000,
            min_trunk_height: 1000,
        }
    }
}

} // verus!
