//! Window-matching delta library.
//!
//! Computes a compact delta between two byte buffers by fingerprinting
//! fixed-size windows of content, and replays such a delta against the
//! old buffer to reconstruct the new one exactly.

pub mod delta;
pub mod digest;
pub mod laws;
pub mod window;

use vstd::prelude::*;

verus! {

/// The errors this library reports.
#[derive(Debug, Clone, Copy, PartialEq, Eq, Structural)]
pub enum DeltaError {
    /// A window size of zero was supplied; a zero-size window is never meaningful.
    InvalidWindowSize,
    /// A COPY instruction's range exceeds the bounds of the old buffer.
    OutOfRangeCopy,
}

} // verus!
