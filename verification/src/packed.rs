//! The records as they lie in an archive file.
//!
//! A record is a run of fixed-width fields with no gaps between them. Each
//! field is kept as its bytes, integers little-endian, so a record in memory
//! has alignment one and the size that it has on disk.

use vstd::prelude::*;
use vstd::bytes::spec_u64_from_le_bytes;
use crate::bytes::{take, u64_of};
use crate::error::Error;

verus! {

/// Bytes in a header record.
pub const HEADER_SIZE: usize = 136;

/// Bytes in an entry record.
pub const ENTRY_SIZE: usize = 306;

/// Bytes in a detached signature.
pub const SIGNATURE_LEN: usize = 64;

/// Bytes in a public key.
pub const PUBLIC_KEY_LEN: usize = 32;

/// Bytes in the header that the signature covers: all that follow it.
pub const SIGNED_LEN: usize = 72;

/// Bytes in the path buffer of an entry record.
pub const PATH_LEN: usize = 256;

/// The header record: the signed preamble of an archive.
#[derive(Clone, Copy, Debug)]
pub struct PackedHeader {
    /// Detached signature over the rest of the header.
    pub signature: [u8; 64],
    /// Public key of the signer.
    pub public_key: [u8; 32],
    /// BLAKE3 digest of the entry table.
    pub blake3: [u8; 32],
    /// Number of entry records, which follow the header at once.
    pub count: [u8; 8],
}

impl PackedHeader {
    /// The record as it lies on disk.
    pub open spec fn bytes(&self) -> Seq<u8> {
        self.signature@ + self.public_key@ + self.blake3@ + self.count@
    }

    /// The part of the record that the signature covers.
    pub open spec fn signed_bytes(&self) -> Seq<u8> {
        self.public_key@ + self.blake3@ + self.count@
    }

    /// The number of entry records.
    pub open spec fn spec_count(&self) -> u64 {
        spec_u64_from_le_bytes(self.count@)
    }

    /// Bytes taken by the header and the entry table together, unbounded.
    pub open spec fn table_end(&self) -> int {
        HEADER_SIZE + self.spec_count() * ENTRY_SIZE
    }

    /// Where the data region starts, if that offset fits in 64 bits.
    pub open spec fn spec_size(&self) -> Option<u64> {
        if self.table_end() <= u64::MAX {
            Some(self.table_end() as u64)
        } else {
            None
        }
    }

    /// The number of entry records.
    #[verifier::when_used_as_spec(spec_count)]
    pub fn count(&self) -> (count: u64)
        ensures
            count == self.spec_count(),
    {
        u64_of(&self.count)
    }

    /// The size of the header and its entries, which is the offset of the
    /// data region. `None` when it does not fit in 64 bits.
    #[verifier::when_used_as_spec(spec_size)]
    pub fn size(&self) -> (size: Option<u64>)
        ensures
            size == self.spec_size(),
    {
        match self.count().checked_mul(ENTRY_SIZE as u64) {
            Some(table) => table.checked_add(HEADER_SIZE as u64),
            None => None,
        }
    }

    /// Reads a header record from a buffer that holds exactly one.
    pub fn from_bytes(bytes: &[u8]) -> (parsed: Result<PackedHeader, Error>)
        ensures
            bytes@.len() < HEADER_SIZE <==> parsed == Err::<PackedHeader, Error>(Error::TooShort),
            bytes@.len() > HEADER_SIZE <==> parsed == Err::<PackedHeader, Error>(Error::TooLong),
            bytes@.len() == HEADER_SIZE <==> parsed is Ok,
            parsed matches Ok(header) ==> header.bytes() == bytes@,
    {
        if bytes.len() < HEADER_SIZE {
            return Err(Error::TooShort);
        }
        if bytes.len() > HEADER_SIZE {
            return Err(Error::TooLong);
        }
        let header = PackedHeader {
            signature: take::<64>(bytes, 0),
            public_key: take::<32>(bytes, 64),
            blake3: take::<32>(bytes, 96),
            count: take::<8>(bytes, 128),
        };
        assert(header.bytes() =~= bytes@);
        Ok(header)
    }

    /// Writes the record as it lies on disk.
    pub fn to_bytes(&self) -> (bytes: Vec<u8>)
        ensures
            bytes@ == self.bytes(),
            bytes@.len() == HEADER_SIZE,
    {
        let mut bytes: Vec<u8> = Vec::with_capacity(HEADER_SIZE);
        bytes.extend_from_slice(self.signature.as_slice());
        bytes.extend_from_slice(self.public_key.as_slice());
        bytes.extend_from_slice(self.blake3.as_slice());
        bytes.extend_from_slice(self.count.as_slice());
        assert(bytes@ =~= self.bytes());
        bytes
    }
}

/// An entry record: what the entry table holds for one archived file.
#[derive(Clone, Copy, Debug)]
pub struct PackedEntry {
    /// BLAKE3 digest of the file's data.
    pub blake3: [u8; 32],
    /// Offset of the file's data in the data region.
    pub offset: [u8; 8],
    /// Size in bytes of the file's data in the data region.
    pub size: [u8; 8],
    /// Unix permissions (user, group, other with read, write, execute).
    pub mode: [u8; 2],
    /// NUL-terminated relative path from the directory of installation.
    pub path: [u8; 256],
}

impl PackedEntry {
    /// The record as it lies on disk.
    pub open spec fn bytes(&self) -> Seq<u8> {
        self.blake3@ + self.offset@ + self.size@ + self.mode@ + self.path@
    }

    /// Reads an entry record from a buffer that holds exactly one.
    pub fn from_bytes(bytes: &[u8]) -> (parsed: Result<PackedEntry, Error>)
        ensures
            bytes@.len() < ENTRY_SIZE <==> parsed == Err::<PackedEntry, Error>(Error::TooShort),
            bytes@.len() > ENTRY_SIZE <==> parsed == Err::<PackedEntry, Error>(Error::TooLong),
            bytes@.len() == ENTRY_SIZE <==> parsed is Ok,
            parsed matches Ok(record) ==> record.bytes() == bytes@,
    {
        if bytes.len() < ENTRY_SIZE {
            return Err(Error::TooShort);
        }
        if bytes.len() > ENTRY_SIZE {
            return Err(Error::TooLong);
        }
        let record = PackedEntry {
            blake3: take::<32>(bytes, 0),
            offset: take::<8>(bytes, 32),
            size: take::<8>(bytes, 40),
            mode: take::<2>(bytes, 48),
            path: take::<256>(bytes, 50),
        };
        assert(record.bytes() =~= bytes@);
        Ok(record)
    }

    /// Writes the record as it lies on disk.
    pub fn to_bytes(&self) -> (bytes: Vec<u8>)
        ensures
            bytes@ == self.bytes(),
            bytes@.len() == ENTRY_SIZE,
    {
        let mut bytes: Vec<u8> = Vec::with_capacity(ENTRY_SIZE);
        bytes.extend_from_slice(self.blake3.as_slice());
        bytes.extend_from_slice(self.offset.as_slice());
        bytes.extend_from_slice(self.size.as_slice());
        bytes.extend_from_slice(self.mode.as_slice());
        bytes.extend_from_slice(self.path.as_slice());
        assert(bytes@ =~= self.bytes());
        bytes
    }
}

/// Two header records with the same bytes are the same record.
pub proof fn lemma_header_bytes_injective(left: PackedHeader, right: PackedHeader)
    requires
        left.bytes() == right.bytes(),
    ensures
        left == right,
{
    let l = left.bytes();
    let r = right.bytes();
    assert(left.signature@ =~= l.subrange(0, 64));
    assert(right.signature@ =~= r.subrange(0, 64));
    assert(left.public_key@ =~= l.subrange(64, 96));
    assert(right.public_key@ =~= r.subrange(64, 96));
    assert(left.blake3@ =~= l.subrange(96, 128));
    assert(right.blake3@ =~= r.subrange(96, 128));
    assert(left.count@ =~= l.subrange(128, 136));
    assert(right.count@ =~= r.subrange(128, 136));
    assert(left.signature =~= right.signature);
    assert(left.public_key =~= right.public_key);
    assert(left.blake3 =~= right.blake3);
    assert(left.count =~= right.count);
}

/// Two entry records with the same bytes are the same record.
pub proof fn lemma_entry_bytes_injective(left: PackedEntry, right: PackedEntry)
    requires
        left.bytes() == right.bytes(),
    ensures
        left == right,
{
    let l = left.bytes();
    let r = right.bytes();
    assert(left.blake3@ =~= l.subrange(0, 32));
    assert(right.blake3@ =~= r.subrange(0, 32));
    assert(left.offset@ =~= l.subrange(32, 40));
    assert(right.offset@ =~= r.subrange(32, 40));
    assert(left.size@ =~= l.subrange(40, 48));
    assert(right.size@ =~= r.subrange(40, 48));
    assert(left.mode@ =~= l.subrange(48, 50));
    assert(right.mode@ =~= r.subrange(48, 50));
    assert(left.path@ =~= l.subrange(50, 306));
    assert(right.path@ =~= r.subrange(50, 306));
    assert(left.blake3 =~= right.blake3);
    assert(left.offset =~= right.offset);
    assert(left.size =~= right.size);
    assert(left.mode =~= right.mode);
    assert(left.path =~= right.path);
}

} // verus!
