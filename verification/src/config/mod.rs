//! Configuration parsing and representation.

pub mod full;
pub mod partial;
pub mod xresources;

use vstd::prelude::*;

verus! {

/// Errors in reading a configuration.
#[derive(Debug, Clone, Copy, PartialEq, Eq, Structural)]
pub enum ConfigError {
    /// A relative include in a file whose path has no parent directory.
    NoParentDirectory,
}

} // verus!
