//! The ways a run can fail.

use vstd::prelude::*;

verus! {

/// Errors that abort a scoring, a move or a run.
#[derive(Clone, Copy, Debug, PartialEq, Eq, Structural)]
pub enum GroupingError {
    /// Zero groups were asked for.
    InvalidGroupCount,
    /// A cooling schedule of zero steps.
    InvalidStepCount,
    /// A relationship pair names a student outside the solution.
    UnknownStudentReference,
}

} // verus!
