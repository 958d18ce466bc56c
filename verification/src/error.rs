//! What can go wrong while an archive is built, opened, read or applied.

use vstd::prelude::*;
use crate::entry::Entry;

verus! {

/// A failure of an archive operation. None of them is ever downgraded: the
/// operation in progress stops at the first one.
#[derive(Clone, Debug, PartialEq, Eq)]
pub enum Error {
    /// A buffer holds fewer bytes than the record or table read from it.
    TooShort,
    /// A buffer holds more bytes than the one record it was said to hold.
    TooLong,
    /// An offset or a size does not fit in 64 bits, or a length does not fit
    /// in the machine's address space.
    Overflow,
    /// The signature service rejected the header.
    InvalidData,
    /// The header was signed by another key than the one it is checked with.
    InvalidKey,
    /// The digest stored in the header is not the digest of the entry table.
    InvalidBlake3,
    /// Mode bits outside the unix permission bits.
    InvalidMode(u16),
    /// A path that, with its terminator, does not fit the record's buffer.
    PathTooLong(Vec<u8>),
    /// No file lies at the path, where one was expected.
    NotFound(Vec<u8>),
    /// The byte source failed to read, with what it said.
    Io(String),
    /// A failure that concerns one entry, which is carried along.
    Entry(Entry, EntryError),
}

/// Why an entry was refused.
#[derive(Clone, Debug, PartialEq, Eq)]
pub enum EntryError {
    /// The stored path has a component that is not a plain name. The
    /// component is `/` for a leading separator, and else the bytes between
    /// two separators: empty, `.` or `..`.
    InvalidPathComponent(Vec<u8>),
    /// The data has another length than the entry records: the actual length
    /// first, then the expected one.
    LengthMismatch(u64, u64),
    /// The data has the recorded length but another digest.
    InvalidBlake3,
}

} // verus!
