//! Errors of the OpenCASCADE file and mesh operations.

use vstd::prelude::*;

verus! {

/// Errors that can occur during OpenCASCADE operations.
#[derive(Debug, Clone, Copy, PartialEq, Eq, Structural)]
pub enum Error {
    /// STEP file read failed (invalid format or corrupted data).
    StepReadFailed,
    /// BRep file read failed (invalid format or corrupted data).
    BrepReadFailed,
    /// STEP file write failed.
    StepWriteFailed,
    /// BRep file write failed.
    BrepWriteFailed,
    /// Triangulation/meshing failed.
    TriangulationFailed,
}

/// What `Error::message` reads.
pub open spec fn message_spec(e: Error) -> Seq<char> {
    match e {
        Error::StepReadFailed => "STEP read failed"@,
        Error::BrepReadFailed => "BRep read failed"@,
        Error::StepWriteFailed => "STEP write failed"@,
        Error::BrepWriteFailed => "BRep write failed"@,
        Error::TriangulationFailed => "Triangulation failed"@,
    }
}

impl Error {
    /// The human-readable message of the error.
    pub fn message(&self) -> (r: String)
        ensures
            r@ == message_spec(*self),
    {
        match self {
            Error::StepReadFailed => String::from_str("STEP read failed"),
            Error::BrepReadFailed => String::from_str("BRep read failed"),
            Error::StepWriteFailed => String::from_str("STEP write failed"),
            Error::BrepWriteFailed => String::from_str("BRep write failed"),
            Error::TriangulationFailed => String::from_str("Triangulation failed"),
        }
    }
}

} // verus!
