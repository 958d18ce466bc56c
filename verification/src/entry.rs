//! One archived file: its digest, where its data lies, its permission bits
//! and its path.
//!
//! An entry is what a record of the entry table means. Its path is stored
//! as it came; [`Entry::check_path`] decides whether it may be joined to a
//! directory of installation, and nothing may write to the path of an entry
//! before that check has passed.

use vstd::prelude::*;
use vstd::bytes::{spec_u16_from_le_bytes, spec_u16_to_le_bytes, spec_u64_from_le_bytes,
    spec_u64_to_le_bytes, lemma_auto_spec_u16_to_from_le_bytes,
    lemma_auto_spec_u64_to_from_le_bytes};
use vstd::slice::{slice_subrange, slice_to_vec};
use crate::bytes::{u16_field, u16_of, u64_field, u64_of};
use crate::error::{EntryError, Error};
use crate::hash::{hash_eq, Digest};
use crate::packed::{PackedEntry, ENTRY_SIZE, PATH_LEN};
use crate::path::{first_fault, is_safe, reported, reports_first_fault, is_first_fault, SEPARATOR};

verus! {

/// Unix permission bits: read, write and execute for user, group and other,
/// with the set-id and sticky bits. No bits of a file's type.
#[derive(Clone, Copy, Debug, PartialEq, Eq)]
pub struct Mode {
    bits: u16,
}

/// The bits that a mode may have set.
pub const PERMISSION_BITS: u16 = 0o7777;

impl Mode {
    #[verifier::type_invariant]
    spec fn only_permissions(self) -> bool {
        self.bits <= PERMISSION_BITS
    }

    /// The bits as a number.
    pub closed spec fn spec_bits(&self) -> u16 {
        self.bits
    }

    /// The mode with every permission bit set.
    pub fn perm() -> (mode: Mode)
        ensures
            mode.spec_bits() == PERMISSION_BITS,
    {
        Mode { bits: PERMISSION_BITS }
    }

    /// The mode with exactly the given bits set, unless one of them is not a
    /// permission bit.
    pub fn from_bits(bits: u16) -> (mode: Option<Mode>)
        ensures
            mode is Some <==> bits <= PERMISSION_BITS,
            mode matches Some(m) ==> m.spec_bits() == bits,
    {
        if bits <= PERMISSION_BITS {
            Some(Mode { bits })
        } else {
            None
        }
    }

    /// The bits as a number.
    #[verifier::when_used_as_spec(spec_bits)]
    pub fn bits(&self) -> (bits: u16)
        ensures
            bits == self.spec_bits(),
            bits <= PERMISSION_BITS,
    {
        proof {
            use_type_invariant(self);
        }
        self.bits
    }
}

/// Two modes with the same bits are the same mode.
pub proof fn lemma_mode_by_bits(left: Mode, right: Mode)
    requires
        left.bits() == right.bits(),
    ensures
        left == right,
{
}

/// Whether the path in a NUL-padded buffer is its first `len` bytes: none of
/// them is NUL, and a NUL or the buffer's end follows.
pub open spec fn is_path_len(buffer: Seq<u8>, len: int) -> bool {
    &&& 0 <= len <= buffer.len()
    &&& (len == buffer.len() || buffer[len] == 0)
    &&& forall|k: int| 0 <= k < len ==> buffer[k] != 0
}

/// The path that a NUL-padded buffer holds: its bytes up to the first NUL.
pub open spec fn path_of(buffer: Seq<u8>) -> Seq<u8> {
    buffer.subrange(0, choose|len: int| is_path_len(buffer, len))
}

/// A path followed by the NUL bytes that fill the buffer of a record.
pub open spec fn padded(path: Seq<u8>) -> Seq<u8> {
    path + Seq::new((PATH_LEN - path.len()) as nat, |i: int| 0u8)
}

/// A buffer holds one path only.
pub proof fn lemma_path_len_unique(buffer: Seq<u8>, len: int)
    requires
        is_path_len(buffer, len),
    ensures
        path_of(buffer) == buffer.subrange(0, len),
{
    let chosen = choose|len: int| is_path_len(buffer, len);
    if chosen < len {
        assert(buffer[chosen] == 0);
    } else if len < chosen {
        assert(buffer[len] == 0);
    }
}

/// A path without a NUL that fits the buffer is read back as it was stored.
pub proof fn lemma_padded_path(path: Seq<u8>)
    requires
        path.len() < PATH_LEN,
        forall|k: int| 0 <= k < path.len() ==> path[k] != 0,
    ensures
        padded(path).len() == PATH_LEN,
        path_of(padded(path)) == path,
{
    assert(is_path_len(padded(path), path.len() as int));
    lemma_path_len_unique(padded(path), path.len() as int);
    assert(padded(path).subrange(0, path.len() as int) =~= path);
}

/// The description of one archived file.
#[derive(Clone, Copy, Debug, PartialEq, Eq)]
pub struct Entry {
    /// BLAKE3 digest of the file's data.
    pub blake3: [u8; 32],
    /// Offset of the file's data in the data region.
    pub offset: u64,
    /// Size of the file's data in bytes.
    pub size: u64,
    /// Unix permission bits.
    pub mode: u16,
    /// Path relative to the directory of installation, NUL-padded.
    pub path: [u8; 256],
}

impl Entry {
    /// The stored path: the bytes of the path buffer up to the first NUL.
    pub open spec fn stored_path(&self) -> Seq<u8> {
        path_of(self.path@)
    }

    /// The entry's record as it lies on disk.
    pub open spec fn bytes(&self) -> Seq<u8> {
        self.blake3@ + spec_u64_to_le_bytes(self.offset) + spec_u64_to_le_bytes(self.size)
            + spec_u16_to_le_bytes(self.mode) + self.path@
    }

    /// What a record means.
    pub open spec fn of_record(record: PackedEntry) -> Entry {
        Entry {
            blake3: record.blake3,
            offset: spec_u64_from_le_bytes(record.offset@),
            size: spec_u64_from_le_bytes(record.size@),
            mode: spec_u16_from_le_bytes(record.mode@),
            path: record.path,
        }
    }

    /// Describes a file. Fails with `PathTooLong`, which carries the path,
    /// exactly when the path and its terminating NUL do not fit the record's
    /// buffer. The path is stored as it is and not checked otherwise, so a
    /// NUL in it ends the stored path there.
    pub fn new(blake3: Digest, offset: u64, size: u64, mode: Mode, path: &[u8]) -> (made: Result<
        Entry,
        Error,
    >)
        ensures
            made is Err <==> path@.len() >= PATH_LEN,
            made matches Err(error) ==> error matches Error::PathTooLong(refused) && refused@
                == path@,
            made matches Ok(entry) ==> {
                &&& entry.blake3 == blake3
                &&& entry.offset == offset
                &&& entry.size == size
                &&& entry.mode == mode.bits()
                &&& entry.mode <= PERMISSION_BITS
                &&& entry.path@ == padded(path@)
            },
    {
        let len = path.len();
        if len >= PATH_LEN {
            return Err(Error::PathTooLong(slice_to_vec(path)));
        }
        let mut buffer = [0u8; 256];
        let mut i: usize = 0;
        while i < len
            invariant
                i <= len,
                len == path@.len(),
                len < PATH_LEN,
                forall|k: int| 0 <= k < i ==> buffer@[k] == path@[k],
                forall|k: int| i <= k < PATH_LEN ==> buffer@[k] == 0,
            decreases len - i,
        {
            buffer[i] = path[i];
            i += 1;
        }
        assert(buffer@ =~= padded(path@));
        Ok(Entry { blake3, offset, size, mode: mode.bits(), path: buffer })
    }

    /// The digest of the file's data.
    pub fn blake3(&self) -> (digest: Digest)
        ensures
            digest == self.blake3,
    {
        self.blake3
    }

    /// The offset of the file's data in the data region.
    pub fn offset(&self) -> (offset: u64)
        ensures
            offset == self.offset,
    {
        self.offset
    }

    /// The size of the file's data in bytes.
    pub fn size(&self) -> (size: u64)
        ensures
            size == self.size,
    {
        self.size
    }

    /// The permission bits. Fails with `InvalidMode`, which carries the
    /// stored bits, exactly when one of them is not a permission bit.
    pub fn mode(&self) -> (mode: Result<Mode, Error>)
        ensures
            mode is Ok <==> self.mode <= PERMISSION_BITS,
            mode matches Ok(m) ==> m.bits() == self.mode,
            mode matches Err(error) ==> error == Error::InvalidMode(self.mode),
    {
        match Mode::from_bits(self.mode) {
            Some(mode) => Ok(mode),
            None => Err(Error::InvalidMode(self.mode)),
        }
    }

    /// The stored path: the bytes of the path buffer up to the first NUL, or
    /// all of them if there is none.
    pub fn path_bytes(&self) -> (path: &[u8])
        ensures
            path@ == self.stored_path(),
            is_path_len(self.path@, path@.len() as int),
    {
        let mut len: usize = 0;
        while len < PATH_LEN && self.path[len] != 0
            invariant
                len <= PATH_LEN,
                forall|k: int| 0 <= k < len ==> self.path@[k] != 0,
            decreases PATH_LEN - len,
        {
            len += 1;
        }
        proof {
            lemma_path_len_unique(self.path@, len as int);
        }
        slice_subrange(self.path.as_slice(), 0, len)
    }

    /// Walks the components of the stored path and makes sure that each is a
    /// plain name. Returns the path if so. Fails on the first component that
    /// is not, with `InvalidPathComponent`, which carries what
    /// [`reported`] gives for that component, beside the entry itself.
    pub fn check_path(&self) -> (checked: Result<&[u8], Error>)
        ensures
            checked is Ok <==> is_safe(self.stored_path()),
            checked matches Ok(path) ==> path@ == self.stored_path(),
            checked matches Err(error) ==> {
                &&& error matches Error::Entry(entry, EntryError::InvalidPathComponent(component))
                &&& entry == *self
                &&& reports_first_fault(self.stored_path(), component@)
            },
    {
        let path = self.path_bytes();
        match first_fault(path) {
            None => Ok(path),
            Some((start, end)) => {
                let component = if end == 0 && path.len() > 0 {
                    let mut root: Vec<u8> = Vec::new();
                    root.push(SEPARATOR);
                    assert(root@ =~= seq![SEPARATOR]);
                    root
                } else {
                    slice_to_vec(slice_subrange(path, start, end))
                };
                assert(is_first_fault(path@, start as int, end as int) && component@ == reported(
                    path@,
                    start as int,
                    end as int,
                ));
                Err(Error::Entry(*self, EntryError::InvalidPathComponent(component)))
            },
        }
    }

    /// Compares the digest and the size of some data with those that the
    /// entry records. Fails with `LengthMismatch`, which carries the actual
    /// and then the expected size, when the sizes differ, and with
    /// `InvalidBlake3` when the sizes agree and the digests differ. Either
    /// failure carries the entry.
    pub fn verify(&self, blake3: Digest, size: u64) -> (verified: Result<(), Error>)
        ensures
            verified is Ok <==> size == self.size && blake3 == self.blake3,
            size != self.size ==> verified == Err::<(), Error>(
                Error::Entry(*self, EntryError::LengthMismatch(size, self.size)),
            ),
            size == self.size && blake3 != self.blake3 ==> verified == Err::<(), Error>(
                Error::Entry(*self, EntryError::InvalidBlake3),
            ),
    {
        assert(blake3 == self.blake3 <==> blake3@ == self.blake3@) by {
            assert(blake3@ == self.blake3@ ==> blake3 =~= self.blake3);
        }
        if size != self.size {
            Err(Error::Entry(*self, EntryError::LengthMismatch(size, self.size)))
        } else if !hash_eq(&blake3, &self.blake3) {
            Err(Error::Entry(*self, EntryError::InvalidBlake3))
        } else {
            Ok(())
        }
    }

    /// The entry that a record holds.
    pub fn from_packed(record: &PackedEntry) -> (entry: Entry)
        ensures
            entry == Entry::of_record(*record),
            entry.bytes() == record.bytes(),
    {
        proof {
            lemma_auto_spec_u64_to_from_le_bytes();
            lemma_auto_spec_u16_to_from_le_bytes();
        }
        Entry {
            blake3: record.blake3,
            offset: u64_of(&record.offset),
            size: u64_of(&record.size),
            mode: u16_of(&record.mode),
            path: record.path,
        }
    }

    /// The record that holds the entry.
    pub fn to_packed(&self) -> (record: PackedEntry)
        ensures
            Entry::of_record(record) == *self,
            record.bytes() == self.bytes(),
    {
        PackedEntry {
            blake3: self.blake3,
            offset: u64_field(self.offset),
            size: u64_field(self.size),
            mode: u16_field(self.mode),
            path: self.path,
        }
    }

    /// Reads an entry from a buffer that holds exactly one record.
    pub fn from_bytes(bytes: &[u8]) -> (parsed: Result<Entry, Error>)
        ensures
            bytes@.len() < ENTRY_SIZE <==> parsed == Err::<Entry, Error>(Error::TooShort),
            bytes@.len() > ENTRY_SIZE <==> parsed == Err::<Entry, Error>(Error::TooLong),
            bytes@.len() == ENTRY_SIZE <==> parsed is Ok,
            parsed matches Ok(entry) ==> entry.bytes() == bytes@,
    {
        match PackedEntry::from_bytes(bytes) {
            Ok(record) => Ok(Entry::from_packed(&record)),
            Err(error) => Err(error),
        }
    }

    /// Writes the entry's record as it lies on disk.
    pub fn to_bytes(&self) -> (bytes: Vec<u8>)
        ensures
            bytes@ == self.bytes(),
            bytes@.len() == ENTRY_SIZE,
    {
        self.to_packed().to_bytes()
    }
}

/// Two entries with the same record are the same entry.
pub proof fn lemma_entry_bytes_injective(left: Entry, right: Entry)
    requires
        left.bytes() == right.bytes(),
    ensures
        left == right,
{
    lemma_auto_spec_u64_to_from_le_bytes();
    lemma_auto_spec_u16_to_from_le_bytes();
    let l = left.bytes();
    let r = right.bytes();
    assert(left.blake3@ =~= l.subrange(0, 32));
    assert(right.blake3@ =~= r.subrange(0, 32));
    assert(spec_u64_to_le_bytes(left.offset) =~= l.subrange(32, 40));
    assert(spec_u64_to_le_bytes(right.offset) =~= r.subrange(32, 40));
    assert(spec_u64_to_le_bytes(left.size) =~= l.subrange(40, 48));
    assert(spec_u64_to_le_bytes(right.size) =~= r.subrange(40, 48));
    assert(spec_u16_to_le_bytes(left.mode) =~= l.subrange(48, 50));
    assert(spec_u16_to_le_bytes(right.mode) =~= r.subrange(48, 50));
    assert(left.path@ =~= l.subrange(50, 306));
    assert(right.path@ =~= r.subrange(50, 306));
    assert(left.blake3 =~= right.blake3);
    assert(left.path =~= right.path);
    assert(left.offset == spec_u64_from_le_bytes(spec_u64_to_le_bytes(left.offset)));
    assert(left.size == spec_u64_from_le_bytes(spec_u64_to_le_bytes(left.size)));
    assert(left.mode == spec_u16_from_le_bytes(spec_u16_to_le_bytes(left.mode)));
}

} // verus!
