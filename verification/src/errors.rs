//! The error taxonomy shared by the engines.

use vstd::prelude::*;

verus! {

/// Failures an engine can report.
///
/// `NotFound`: a search exhausted its frontier without satisfying the goal.
/// `IndexOutOfRange`: a disjoint-set operation was given an element index
/// outside `0..n`.
/// `InvalidCycle`: a cycle detector was asked to extrapolate with a cycle
/// length of zero.
#[derive(Debug, Clone, Copy, PartialEq, Eq, Structural)]
pub enum EngineError {
    NotFound,
    IndexOutOfRange,
    InvalidCycle,
}

impl EngineError {
    /// A short description of the error.
    pub fn describe(&self) -> (r: &'static str)
        ensures
            r@ == self.describe_spec(),
    {
        match self {
            EngineError::NotFound => "goal not found",
            EngineError::IndexOutOfRange => "index out of range",
            EngineError::InvalidCycle => "cycle of length zero",
        }
    }

    /// What `describe` returns for each variant.
    pub open spec fn describe_spec(&self) -> Seq<char> {
        match self {
            EngineError::NotFound => "goal not found"@,
            EngineError::IndexOutOfRange => "index out of range"@,
            EngineError::InvalidCycle => "cycle of length zero"@,
        }
    }
}

} // verus!
