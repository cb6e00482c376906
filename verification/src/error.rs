//! What is wrong with a configuration that the library refuses.

use vstd::prelude::*;

verus! {

/// The reason a configuration is refused.
#[derive(Clone, Copy, Debug, PartialEq, Eq, Structural)]
pub enum ConfigurationError {
    /// A growth length is zero or negative.
    NonPositiveLength,
    /// A growth length exceeds `LENGTH_LIMIT`.
    LengthOutOfRange,
    /// The kill distance is not below the attraction distance.
    KillDistanceNotBelowAttraction,
    /// The attractor density is zero or negative.
    NonPositiveDensity,
    /// A position lies outside the world, or a direction is too long.
    OutOfWorld,
    /// The attractor spacing rounds down to zero units.
    SpacingVanishes,
    /// The attractor set would grow beyond `ATTRACTOR_LIMIT`.
    TooManyAttractors,
}

} // verus!
