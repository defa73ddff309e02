//! Verified core of cadrum: the DNF algebra behind boolean expressions over solids
//! and sketches, the BRep colour trailer format, colour bookkeeping across boolean
//! results, and the integer topology behind the SDF contour extraction.

pub mod common;
pub mod error;
pub mod occt;
pub mod sdf;
pub mod clang;
