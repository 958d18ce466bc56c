//! Building an archive.
//!
//! A builder collects the entries of an archive one file at a time and
//! places each file's data right behind the data of the files before it, so
//! that the data region has no gaps and no overlaps. When all files are in,
//! the builder names the bytes to be signed; signing is the work of a
//! signature service outside this library. With the signature the builder
//! writes the head of the archive, header and entry table, and the data
//! region follows it.

use vstd::prelude::*;
use vstd::bytes::spec_u64_to_le_bytes;
use crate::bytes::u64_field;
use crate::entry::{padded, Entry, Mode};
use crate::error::Error;
use crate::hash::{blake3_digest, hash, Digest};
use crate::package::{table_bytes, write_table};
use crate::packed::PATH_LEN;

verus! {

/// The sum of the sizes of the data of `entries`.
pub open spec fn total_size(entries: Seq<Entry>) -> int
    decreases entries.len(),
{
    if entries.len() == 0 {
        0
    } else {
        total_size(entries.drop_last()) + entries.last().size
    }
}

/// Whether the data of each entry starts where the data of the entries
/// before it ends, the first at the start of the data region.
pub open spec fn is_dense(entries: Seq<Entry>) -> bool {
    forall|i: int|
        0 <= i < entries.len() ==> (#[trigger] entries[i]).offset == total_size(
            entries.subrange(0, i),
        )
}

/// The sizes of the entries at the front of a list add up to no more than
/// the sizes of all.
pub proof fn lemma_total_size_grows(entries: Seq<Entry>, i: int)
    requires
        0 <= i <= entries.len(),
    ensures
        0 <= total_size(entries.subrange(0, i)) <= total_size(entries),
    decreases entries.len(),
{
    if i == entries.len() {
        assert(entries.subrange(0, i) =~= entries);
        if i > 0 {
            lemma_total_size_grows(entries.drop_last(), i - 1);
        }
    } else {
        lemma_total_size_grows(entries.drop_last(), i);
        assert(entries.drop_last().subrange(0, i) =~= entries.subrange(0, i));
    }
}

/// In a dense list of entries, the data of an entry ends where the data of
/// the next one starts, and before the data of every later one: no two
/// entries overlap, and there is no gap between them.
pub proof fn lemma_dense_entries_do_not_overlap(entries: Seq<Entry>, i: int, j: int)
    requires
        is_dense(entries),
        0 <= i < j < entries.len(),
    ensures
        entries[i].offset + entries[i].size <= entries[j].offset,
        j == i + 1 ==> entries[i].offset + entries[i].size == entries[j].offset,
{
    let upto_i = entries.subrange(0, i);
    let upto_next = entries.subrange(0, i + 1);
    let upto_j = entries.subrange(0, j);
    assert(upto_next.drop_last() =~= upto_i);
    assert(upto_next.last() == entries[i]);
    assert(upto_j.subrange(0, i + 1) =~= upto_next);
    lemma_total_size_grows(upto_j, i + 1);
}

/// The part of the header that the signature covers, for an archive with
/// the given entries that `public_key` signs: the key, the digest of the
/// entry table and the number of entries.
pub open spec fn signed_bytes(public_key: [u8; 32], entries: Seq<Entry>) -> Seq<u8> {
    public_key@ + blake3_digest(table_bytes(entries))@ + spec_u64_to_le_bytes(
        entries.len() as u64,
    )
}

/// The head of an archive: the header, which starts with the signature, and
/// the entry table.
pub open spec fn head_bytes(signature: [u8; 64], public_key: [u8; 32], entries: Seq<Entry>) -> Seq<
    u8,
> {
    signature@ + signed_bytes(public_key, entries) + table_bytes(entries)
}

/// An archive: the head, and the data region.
pub open spec fn archive_bytes(
    signature: [u8; 64],
    public_key: [u8; 32],
    entries: Seq<Entry>,
    data: Seq<u8>,
) -> Seq<u8> {
    head_bytes(signature, public_key, entries) + data
}

/// An archive in the making: the entries collected so far.
pub struct PackageBuilder {
    public_key: [u8; 32],
    entries: Vec<Entry>,
    total: u64,
}

impl PackageBuilder {
    #[verifier::type_invariant]
    spec fn packs_densely(self) -> bool {
        &&& is_dense(self.entries@)
        &&& self.total == total_size(self.entries@)
    }

    /// The entries collected so far, in the order in which they came.
    pub closed spec fn spec_entries(&self) -> Seq<Entry> {
        self.entries@
    }

    /// The key that the archive will be signed with.
    pub closed spec fn spec_public_key(&self) -> [u8; 32] {
        self.public_key
    }

    /// A builder of an archive to be signed with the secret key that belongs
    /// to `public_key`, without entries.
    pub fn new(public_key: [u8; 32]) -> (builder: PackageBuilder)
        ensures
            builder.spec_entries() == Seq::<Entry>::empty(),
            builder.spec_public_key() == public_key,
    {
        PackageBuilder { public_key, entries: Vec::new(), total: 0 }
    }

    /// The entries collected so far. Their data lies densely in the data
    /// region, in their order.
    pub fn entries(&self) -> (entries: &Vec<Entry>)
        ensures
            entries@ == self.spec_entries(),
            is_dense(entries@),
            total_size(entries@) <= u64::MAX,
    {
        proof {
            use_type_invariant(self);
        }
        &self.entries
    }

    /// The size of the data region so far.
    pub fn data_size(&self) -> (size: u64)
        ensures
            size == total_size(self.spec_entries()),
    {
        proof {
            use_type_invariant(self);
        }
        self.total
    }

    /// Adds the entry of a file whose data has the digest `blake3` and
    /// `size` bytes. The data is placed behind the data of the entries
    /// before. Fails with `PathTooLong` when the path does not fit a record,
    /// else with `Overflow` when the data region would outgrow 64 bits. A
    /// failure ends the build.
    pub fn add(self, blake3: Digest, size: u64, mode: Mode, path: &[u8]) -> (added: Result<
        PackageBuilder,
        Error,
    >)
        ensures
            added is Ok <==> path@.len() < PATH_LEN && total_size(self.spec_entries()) + size
                <= u64::MAX,
            added matches Ok(builder) ==> {
                &&& builder.spec_public_key() == self.spec_public_key()
                &&& builder.spec_entries().len() == self.spec_entries().len() + 1
                &&& builder.spec_entries().drop_last() == self.spec_entries()
                &&& is_entry_of(
                    builder.spec_entries().last(),
                    blake3,
                    total_size(self.spec_entries()),
                    size as int,
                    mode,
                    path@,
                )
            },
            added matches Err(error) ==> if path@.len() >= PATH_LEN {
                error matches Error::PathTooLong(refused) && refused@ == path@
            } else {
                error == Error::Overflow
            },
    {
        proof {
            use_type_invariant(&self);
        }
        let entry = Entry::new(blake3, self.total, size, mode, path)?;
        let total = match self.total.checked_add(size) {
            Some(total) => total,
            None => {
                return Err(Error::Overflow);
            },
        };
        let PackageBuilder { public_key, mut entries, total: _ } = self;
        let ghost before = entries@;
        entries.push(entry);
        proof {
            assert(entries@.drop_last() =~= before);
            assert forall|i: int| 0 <= i < entries@.len() implies (#[trigger] entries@[i]).offset
                == total_size(entries@.subrange(0, i)) by {
                if i < before.len() {
                    assert(entries@.subrange(0, i) =~= before.subrange(0, i));
                } else {
                    assert(entries@.subrange(0, i) =~= before);
                }
            }
        }
        Ok(PackageBuilder { public_key, entries, total })
    }

    /// Adds the entry of a file with the given data, and appends the data to
    /// the data region `region`. Fails as [`Self::add`] does, and then leaves
    /// `region` as it was.
    pub fn file(self, path: &[u8], mode: Mode, data: &[u8], region: &mut Vec<u8>) -> (added:
        Result<PackageBuilder, Error>)
        ensures
            added is Ok <==> path@.len() < PATH_LEN && total_size(self.spec_entries())
                + data@.len() <= u64::MAX,
            added matches Ok(builder) ==> {
                &&& builder.spec_public_key() == self.spec_public_key()
                &&& builder.spec_entries().len() == self.spec_entries().len() + 1
                &&& builder.spec_entries().drop_last() == self.spec_entries()
                &&& is_entry_of(
                    builder.spec_entries().last(),
                    blake3_digest(data@),
                    total_size(self.spec_entries()),
                    data@.len() as int,
                    mode,
                    path@,
                )
                &&& final(region)@ == old(region)@ + data@
            },
            added matches Err(error) ==> {
                &&& final(region)@ == old(region)@
                &&& if path@.len() >= PATH_LEN {
                    error matches Error::PathTooLong(refused) && refused@ == path@
                } else {
                    error == Error::Overflow
                }
            },
    {
        let size = data.len() as u64;
        let builder = self.add(hash(data), size, mode, path)?;
        region.extend_from_slice(data);
        assert(region@ =~= old(region)@ + data@);
        Ok(builder)
    }

    /// The bytes that the signature of the archive covers: the header
    /// without its signature.
    pub fn signed_bytes(&self) -> (signed: Vec<u8>)
        ensures
            signed@ == signed_bytes(self.spec_public_key(), self.spec_entries()),
    {
        let table = write_table(self.entries.as_slice());
        let digest = hash(table.as_slice());
        let count = u64_field(self.entries.len() as u64);
        let mut signed: Vec<u8> = Vec::new();
        signed.extend_from_slice(self.public_key.as_slice());
        signed.extend_from_slice(digest.as_slice());
        signed.extend_from_slice(count.as_slice());
        assert(signed@ =~= self.public_key@ + digest@ + count@);
        signed
    }

    /// Writes the head of the archive: the header, with the signature that
    /// the service gave for [`Self::signed_bytes`], and the entry table. The
    /// data region follows the head.
    pub fn write_head(&self, signature: [u8; 64]) -> (head: Vec<u8>)
        ensures
            head@ == head_bytes(signature, self.spec_public_key(), self.spec_entries()),
    {
        let mut head: Vec<u8> = Vec::new();
        head.extend_from_slice(signature.as_slice());
        let signed = self.signed_bytes();
        head.extend_from_slice(signed.as_slice());
        let table = write_table(self.entries.as_slice());
        head.extend_from_slice(table.as_slice());
        assert(head@ =~= signature@ + signed@ + table@);
        head
    }

    /// Writes the archive: the head, then the data region `data`.
    pub fn write_archive(&self, signature: [u8; 64], data: &[u8]) -> (archive: Vec<u8>)
        ensures
            archive@ == archive_bytes(
                signature,
                self.spec_public_key(),
                self.spec_entries(),
                data@,
            ),
    {
        let mut archive = self.write_head(signature);
        archive.extend_from_slice(data);
        assert(archive@ =~= head_bytes(signature, self.public_key, self.entries@) + data@);
        archive
    }
}

/// Whether `entry` describes a file with the given digest, size, mode and
/// path whose data lies at `offset` in the data region.
pub open spec fn is_entry_of(
    entry: Entry,
    blake3: Digest,
    offset: int,
    size: int,
    mode: Mode,
    path: Seq<u8>,
) -> bool {
    &&& entry.blake3 == blake3
    &&& entry.offset == offset
    &&& entry.size == size
    &&& entry.mode == mode.bits()
    &&& entry.path@ == padded(path)
}

} // verus!
