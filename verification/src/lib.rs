//! A delta-transfer library in the spirit of rsync.
//!
//! Given a stale copy of a file (the "old" bytes, held by a destination) and a
//! current copy (the "new" bytes, held by a source), the library computes a
//! compact set of instructions that turns the old bytes into the new bytes
//! without shipping the whole file:
//!
//! 1. the destination splits its old file into fixed-size blocks and builds a
//!    [`signature::Signature`] holding a weak (rolling) and a strong checksum
//!    per block;
//! 2. the source scans its new file once against that signature and emits a
//!    [`delta::Delta`], an ordered program of `Copy` and `Literal` operations;
//! 3. the destination replays the delta against its old bytes to reconstruct
//!    the new bytes exactly.
//!
//! Directory synchronization around this core is planned by the functions in
//! [`archive`]; the filesystem work itself stays with the caller.

use vstd::prelude::*;

pub mod archive;
pub mod checksum;
pub mod codec;
pub mod delta;
pub mod laws;
pub mod matcher;
pub mod signature;

verus! {

/// The error kinds the library reports.
///
/// Weak-checksum collisions are never surfaced: the matcher recovers from them
/// locally by falling back to literal emission.
#[derive(Clone, Copy, Debug, PartialEq, Eq, Structural)]
pub enum SyncError {
    /// A block size of zero was supplied.
    InvalidConfiguration,
    /// A read or write on a file failed; reported by callers that perform the
    /// filesystem work around this core.
    Io,
    /// A delta references blocks inconsistent with the supplied old file.
    SignatureMismatch,
    /// Encoded input ended in the middle of a record.
    Truncated,
}

} // verus!
