//! What can be wrong with a configuration.

use vstd::prelude::*;

verus! {

/// Why a simulation cannot be set up, or a system not be solved.
#[derive(Clone, Copy, Debug, PartialEq, Eq, Structural)]
pub enum ConfigError {
    /// The grid has no interior cell, or more cells than can be indexed.
    InvalidSize,
    /// Fewer than one relaxation sweep was asked for.
    InvalidIterations,
    /// The coefficient by which the solver divides is zero.
    ZeroCoefficient,
}

} // verus!
