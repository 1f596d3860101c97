//! The version of the engine.
use vstd::prelude::*;

verus! {

/// The version that the engine reports.
pub const VERSION: &'static str = "0.1.0";

} // verus!
