//! Errors reported when a component is configured with values it cannot run on.

use vstd::prelude::*;

verus! {

/// A configuration value that makes a simulation meaningless.
#[derive(Debug, Clone, Copy, PartialEq, Eq, Structural)]
pub enum ConfigError {
    /// A generator was given the modulus zero.
    ZeroModulus,
    /// A generator was asked to emit only multiples of zero.
    ZeroAcceptDivisor,
    /// A scanner was given an empty range.
    ZeroRange,
}

} // verus!
