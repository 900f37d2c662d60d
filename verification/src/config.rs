//! The broker's configuration.

use vstd::prelude::*;

verus! {

/// The broker's configuration.
#[derive(Debug, PartialEq, Eq)]
pub struct Config {
    /// The address on which the broker listens, as `host:port`.
    pub listener: String,
}

} // verus!
