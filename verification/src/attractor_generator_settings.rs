//! How densely a shape is filled with attractors.

use crate::error::ConfigurationError;
use crate::vec::SCALE;
use vstd::prelude::*;

verus! {

/// The settings of the attractor field.
#[derive(Clone, Copy, Debug, PartialEq, Eq)]
pub struct AttractorGeneratorSettings {
    /// An upper bound on the attractors wanted; no shape reads it yet.
    pub max_leaves: Option<i32>,
    /// A lower bound on the attractors wanted; no shape reads it yet.
    pub min_leaves: Option<i32>,
    /// Fixed-point density: at `SCALE` the attractors are spaced so that
    /// the growth can fill the shape, above it they stand closer.
    pub density: i64,
}

impl AttractorGeneratorSettings {
    /// The density is positive.
    pub open spec fn valid(self) -> bool {
        self.density > 0
    }

    /// Accepts the settings or names their fault.
    pub fn validate(&self) -> (r: Result<(), ConfigurationError>)
        ensures
            r is Ok <==> self.valid(),
            r matches Err(e) ==> e == ConfigurationError::NonPositiveDensity,
    {
        if self.density <= 0 {
            Err(ConfigurationError::NonPositiveDensity)
        } else {
            Ok(())
        }
    }
}

impl Default for AttractorGeneratorSettings {
    fn default() -> (r: Self)
        ensures
            r.max_leaves == Some(500i32),
            r.min_leaves == Some(30i32),
            r.density == SCALE,
            r.valid(),
    {
        AttractorGeneratorSettings { max_leaves: Some(500), min_leaves: Some(30), density: SCALE }
    }
}

} // verus!
