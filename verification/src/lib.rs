//! Core of an editor for Bitcoin Core `mempool.dat` snapshot files.
//!
//! The library decodes the legacy (non key-masked) snapshot layout into an
//! in-memory model, lets a caller edit the model (remove or append pool
//! entries), and re-emits the model as bytes. Serialization is specified down
//! to the byte level: re-serializing an unedited snapshot reproduces the
//! original file.

use vstd::prelude::*;

pub mod bytes;
pub mod codec;
pub mod editor;
pub mod model;
pub mod txcodec;

verus! {

/// Version tag of the plain (non key-masked) snapshot layout.
pub const MEMPOOL_DUMP_VERSION_NO_XOR_KEY: u64 = 1;

/// Version tag of the key-masked snapshot layout, which this library refuses.
pub const MEMPOOL_DUMP_VERSION: u64 = 2;

/// Shorthand for the library's fallible operations.
pub type MempoolResult<T> = Result<T, MempoolSerdeError>;

/// Everything that can go wrong inside the codec or at the editing boundary.
///
/// File I/O failures are reported by the caller that owns the file handle;
/// they never originate here.
#[derive(Debug, Clone, Copy, PartialEq, Eq, Structural)]
pub enum MempoolSerdeError {
    /// The file's version tag is not the supported plain-layout tag.
    UnsupportedVersion(u64),
    /// The file is truncated or a sub-record is malformed.
    Decode,
    /// A user-supplied hex string is not well-formed hex.
    InvalidHex,
    /// A user-supplied payload is not a well-formed transaction record.
    InvalidPayload,
}

} // verus!
