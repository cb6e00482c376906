//! Space-colonization growth of a shrub skeleton and its conversion into a
//! sparse voxel volume, over fixed-point integer geometry.
//!
//! Every length and coordinate is an integer number of units, `SCALE` units
//! to one voxel edge, so that every comparison the growth and the voxel rules
//! make is exact and every function is verified against a contract.
//!
//! A shrub is planted with `Shrubbery::new`, given attractors with
//! `spawn_attractors_from_shape`, raised with `build_trunk` and grown with
//! repeated calls of `grow`; `voxelize` turns it into a volume.

pub mod algorithm_settings;
pub mod attractor;
pub mod attractor_generator_settings;
pub mod branch;
pub mod error;
pub mod growth;
pub mod leaf_classifier;
pub mod math_utils;
pub mod prelude;
pub mod random;
pub mod reshape;
pub mod shape;
pub mod shrubbery;
pub mod trunk;
pub mod vec;
pub mod voxel;
