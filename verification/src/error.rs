//! Error taxonomy of the trajectory decoder and delta calculator.
//!
//! Every failure surfaces to the caller as a typed value; nothing is
//! recovered internally and no verified function panics.

use vstd::prelude::*;

verus! {

/// The record field whose bytes ran short.
#[derive(Clone, Copy, Debug, PartialEq, Eq, Structural)]
pub enum RecordField {
    /// One of the `dimensions` position components.
    PositionComponent,
    /// One of the two 16-bit auxiliary fields (cell type, neighbor hint).
    AuxiliaryField,
    /// The trailing 32-bit core size.
    CoreSize,
}

/// A fatal decoding or logic failure.
#[derive(Clone, Copy, Debug, PartialEq, Eq, Structural)]
pub enum TrajError {
    /// Header line `line` (0-based) has no terminating newline.
    IoMissingHeaderLine(usize),
    /// The binary stream ended while the named field was being read.
    IoShortRead(RecordField),
    /// Header line `line` (0-based) failed conversion to its numeric type
    /// or its domain check (counts and intervals must be positive and the
    /// derived snapshot count must fit the machine word).
    ParseHeader(usize),
    /// More than two 16-bit auxiliary fields: unsupported record version.
    Protocol,
    /// The initial step is not below the total step count: no room to
    /// evolve after it.
    LogicNoRoom,
    /// A requested snapshot step matches no recorded snapshot.
    LogicStepNotRecorded,
    /// No particle has any neighbor, so the delta denominator is zero.
    Degenerate,
}

impl TrajError {
    /// A short human-readable description, for callers that print errors.
    pub fn describe(&self) -> (r: &'static str) {
        match self {
            TrajError::IoMissingHeaderLine(_) => "header line is missing",
            TrajError::IoShortRead(RecordField::PositionComponent) => {
                "short read (position component)"
            },
            TrajError::IoShortRead(RecordField::AuxiliaryField) => "short read (extra info)",
            TrajError::IoShortRead(RecordField::CoreSize) => "short read (core size)",
            TrajError::ParseHeader(_) => "header field failed numeric conversion",
            TrajError::Protocol => "unsupported record version",
            TrajError::LogicNoRoom => "start step leaves no room to evolve",
            TrajError::LogicStepNotRecorded => "requested step has no recorded snapshot",
            TrajError::Degenerate => "no particle has any neighbor",
        }
    }
}

} // verus!
