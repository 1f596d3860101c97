//! Errors raised while reading chess notation.
use vstd::prelude::*;

verus! {

/// Why a piece of chess notation was rejected.
#[derive(Copy, Clone, Debug, PartialEq, Eq, Structural)]
pub enum Error {
    InvalidFen,
    InvalidColor,
    InvalidSquare,
}

} // verus!
