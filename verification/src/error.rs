//! The errors of the store.
use vstd::prelude::*;

verus! {

/// `std::io::Error`, which the library carries through and never looks
/// into.
#[verifier::external_type_specification]
#[verifier::external_body]
pub struct ExIoError(std::io::Error);

/// What can go wrong in the store.
#[derive(Debug)]
pub enum Error {
    /// An argument was refused; the text says why.
    ValueError(String),
    /// The bytes handed to the record decoder are fewer than the record
    /// takes: the number of bytes at hand, and the number needed.
    WalRecordTooSmall(usize, usize),
    /// A field of fixed size could not be taken from a slice: the length
    /// expected, and the length received.
    InvalidSliceLength(usize, usize),
    /// The byte that stands for the type of a record names no type, or
    /// names the type that no record may have.
    InvalidRecordType(u8),
    /// The checksum that a record carries is not that of its payload: the
    /// checksum carried, and the checksum of the payload.
    InvalidCrc(u32, u32),
    /// The file of the log could not be read or written. The library does
    /// not touch files; its callers hand on their failures with this.
    Io(std::io::Error),
}

pub type Result<T> = std::result::Result<T, Error>;

} // verus!
