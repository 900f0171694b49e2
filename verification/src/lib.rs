//! Non-affine displacement ("delta", a D2min-style statistic) for particle
//! trajectories stored in a dense hybrid text/binary format.
//!
//! A trajectory file opens with six newline-terminated ASCII header lines
//! (particle count, total steps, snapshot interval, dimensionality,
//! timestep, interaction range) followed by a dense little-endian binary
//! stream of fixed-size per-particle records, one block per recorded
//! snapshot. The library decodes the header and the stream, finds each
//! particle's within-cutoff neighbors at the initial snapshot, and
//! aggregates the non-affine displacement scalar between the initial and
//! final snapshots.
//!
//! Floating-point values are carried throughout as their IEEE-754 binary32
//! bit patterns (`u32`). The four arithmetic operations the statistic needs
//! are delegated to a software IEEE-754 implementation behind the trusted
//! wrappers in [`arith`]; everything else — decoding, stream alignment,
//! neighbor selection, and the exact shape of the accumulation — is
//! verified.

pub mod arith;
pub mod error;
pub mod bits;
pub mod header;
pub mod record;
pub mod neighbor;
pub mod delta;
