//! Human-readable warnings for the command line.
use crate::bfir::Position;
use vstd::prelude::*;

verus! {

/// A warning about the program, with where it applies.
#[derive(Debug, PartialEq, Eq)]
pub struct Warning {
    pub message: String,
    pub position: Option<Position>,
}

} // verus!
