//! What can go wrong while reading or writing an archive.

use crate::version::{Compression, VersionMajor};
use vstd::prelude::*;

verus! {

/// `std::io::Error`, which the compression crates report and this library passes on unread.
#[verifier::external_type_specification]
#[verifier::external_body]
pub struct ExIoError(std::io::Error);

/// A failed read or write.
#[derive(Debug)]
pub enum IoError {
    /// The input ended before a value was complete.
    UnexpectedEof,
    /// A compression crate failed.
    Codec(std::io::Error),
}

#[derive(Debug)]
pub enum Error {
    Io(IoError),
    /// A byte that should hold a boolean held this value.
    Bool(u8),
    /// The footer carries this number instead of `MAGIC`.
    Magic(u32),
    /// The archive is of another version than the one it was read as.
    Version { used: VersionMajor, version: VersionMajor },
    /// The data is encrypted and there is no key.
    Encrypted,
    /// An entry names this slot, and there are only so many.
    UnknownCompressionSlot(u32, usize),
    DecompressionFailed(Compression),
    /// There is no Oodle decompressor.
    OodleFailed,
    Other(String),
}

} // verus!
