//! A signed archive format: a directory tree packed into one file behind a
//! signed header, with a BLAKE3 digest and the unix permission bits of every
//! file, and the plans that install it into, or remove it from, a directory.
//!
//! An archive is laid out as a header record, a table of entry records and
//! the data region, in that order. Every multi-byte integer is little-endian.
//!
//! - [`packed`] holds the records as they lie on disk, and [`entry`] what an
//!   entry record means: where a file's data lies, its digest, its mode and
//!   its path.
//! - [`path`] says which stored paths are safe to join to a directory.
//! - [`hash`] is the digest, computed by the `blake3` crate.
//! - [`package`] opens an archive, checks its header and its entry table,
//!   and reads entries and data from it.
//! - [`ext`] reads the data of one entry as a stream and copies a stream
//!   while hashing it.
//! - [`builder`] collects entries into a new archive.
//! - [`transaction`] plans the filesystem effects of installing or removing
//!   an archive.
//! - [`bin`] has the operations on whole archives.
//!
//! Signatures are made and checked by a service outside this library. The
//! library names the bytes that a signature covers and takes the service's
//! verdict as an argument.

pub mod bin;
pub mod builder;
mod bytes;
pub mod entry;
pub mod error;
pub mod ext;
pub mod hash;
pub mod package;
pub mod packed;
pub mod path;
pub mod transaction;

pub use bin::{create, extract, install, list, remove, verify, File};
pub use builder::PackageBuilder;
pub use entry::{Entry, Mode};
pub use error::{EntryError, Error};
pub use ext::{copy_and_hash, CopyHasher, CopyStep, EntryReader, PackageSrcExt};
pub use package::{PackageBuf, PackageSrc, UnverifiedBuf};
pub use packed::{PackedEntry, PackedHeader};
pub use transaction::{Action, Transaction};
