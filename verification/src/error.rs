//! The failures a stage can report.

use vstd::prelude::*;

verus! {

/// Why a stage gave up on its input.
#[derive(Debug, PartialEq, Eq)]
pub enum StageError {
    /// A frame header declares more payload bytes than the buffer still holds.
    TruncatedRecord {
        /// The payload length that the header declares.
        expected: u32,
        /// How many bytes follow the header.
        remaining: usize,
    },
    /// Bytes are left over after the last complete frame.
    TrailingBytes {
        /// How many bytes are left over.
        count: usize,
    },
    /// The byte source could not be read.
    SourceUnavailable {
        /// What the source reported.
        reason: String,
    },
}

} // verus!
