//! What most users of the library need.

pub use crate::shrubbery::Shrubbery;
