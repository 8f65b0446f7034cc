//! A flat-archive benchmark library.
//!
//! A dataset is a set of files whose bytes are concatenated, in order, into a
//! single flat archive file. A manifest records, for each file, its path, its
//! byte length, and its starting offset inside the archive. This crate holds
//! the verified core of the tool: the manifest model and its offset
//! bookkeeping, the manifest codec, the XOR-fold checksum used to compare
//! archive reads against direct disk reads, and the benchmark bookkeeping.

pub mod bench;
pub mod checksum;
pub mod codec;
pub mod manifest;
pub mod sample;

use vstd::prelude::*;

verus! {

/// Everything that can go wrong in the library's own logic.
#[derive(Debug, Clone, Copy, PartialEq, Eq, Structural)]
pub enum Error {
    /// A manifest file did not have the expected structure.
    Parse,
    /// More files were requested for testing than the manifest holds.
    SampleTooLarge,
    /// The bytes read from the archive did not match the bytes read from disk.
    ChecksumMismatch,
    /// An entry's byte range does not lie inside the archive.
    RangeOutOfBounds,
    /// A size or offset does not fit in the machine's word size.
    Overflow,
}

} // verus!
