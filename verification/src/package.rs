//! Opening an archive and reading what it holds.
//!
//! A byte source goes through three states. Unopened, it is any bytes.
//! Opened, its header record has been read and nothing is trusted yet: that
//! is [`UnverifiedBuf`]. Verified, the signature over the header has been
//! accepted for the expected key and the digest in the header is the digest
//! of the entry table: that is a [`PackageSrc`], and only such a source hands
//! out entries and data.
//!
//! Checking the signature is the work of a signature service outside this
//! library. The caller asks it about [`UnverifiedBuf::signed_bytes`] and
//! [`UnverifiedBuf::signature`] and hands its verdict to
//! [`UnverifiedBuf::verify`].

use vstd::prelude::*;
use vstd::bytes::spec_u64_from_le_bytes;
use vstd::slice::slice_subrange;
use crate::bytes::same_bytes;
use crate::entry::{lemma_entry_bytes_injective, Entry};
use crate::error::Error;
use crate::hash::{blake3_digest, hash, hash_eq, Digest};
use crate::packed::{PackedHeader, ENTRY_SIZE, HEADER_SIZE, SIGNATURE_LEN};

verus! {

/// The entry table of a list of entries: their records, one after the other.
pub open spec fn table_bytes(entries: Seq<Entry>) -> Seq<u8>
    decreases entries.len(),
{
    if entries.len() == 0 {
        Seq::empty()
    } else {
        table_bytes(entries.drop_last()) + entries.last().bytes()
    }
}

/// A table has one record's worth of bytes for each entry.
pub proof fn lemma_table_len(entries: Seq<Entry>)
    ensures
        table_bytes(entries).len() == entries.len() * ENTRY_SIZE,
    decreases entries.len(),
{
    if entries.len() > 0 {
        lemma_table_len(entries.drop_last());
        vstd::bytes::lemma_auto_spec_u64_to_from_le_bytes();
        vstd::bytes::lemma_auto_spec_u16_to_from_le_bytes();
        assert(entries.last().bytes().len() == ENTRY_SIZE);
        assert(entries.len() * ENTRY_SIZE == (entries.len() - 1) * ENTRY_SIZE + ENTRY_SIZE)
            by (nonlinear_arith);
    }
}

/// The record of the entry at index `i` lies `i` records into the table.
pub proof fn lemma_table_record(entries: Seq<Entry>, i: int)
    requires
        0 <= i < entries.len(),
    ensures
        (i + 1) * ENTRY_SIZE <= table_bytes(entries).len(),
        table_bytes(entries).subrange(i * ENTRY_SIZE, (i + 1) * ENTRY_SIZE) == entries[i].bytes(),
    decreases entries.len(),
{
    lemma_table_len(entries);
    lemma_table_len(entries.drop_last());
    let table = table_bytes(entries);
    let front = table_bytes(entries.drop_last());
    assert((i + 1) * ENTRY_SIZE <= entries.len() * ENTRY_SIZE) by (nonlinear_arith)
        requires
            i + 1 <= entries.len(),
    ;
    assert((i + 1) * ENTRY_SIZE == i * ENTRY_SIZE + ENTRY_SIZE) by (nonlinear_arith);
    if i == entries.len() - 1 {
        assert(table.subrange(i * ENTRY_SIZE, (i + 1) * ENTRY_SIZE) =~= entries[i].bytes());
    } else {
        lemma_table_record(entries.drop_last(), i);
        assert(table.subrange(i * ENTRY_SIZE, (i + 1) * ENTRY_SIZE) =~= front.subrange(
            i * ENTRY_SIZE,
            (i + 1) * ENTRY_SIZE,
        ));
    }
}

/// Two lists of entries with the same table are the same list.
pub proof fn lemma_table_injective(left: Seq<Entry>, right: Seq<Entry>)
    requires
        table_bytes(left) == table_bytes(right),
    ensures
        left == right,
{
    lemma_table_len(left);
    lemma_table_len(right);
    assert(left.len() == right.len()) by (nonlinear_arith)
        requires
            left.len() * ENTRY_SIZE == right.len() * ENTRY_SIZE,
    ;
    assert forall|i: int| 0 <= i < left.len() implies left[i] == right[i] by {
        lemma_table_record(left, i);
        lemma_table_record(right, i);
        lemma_entry_bytes_injective(left[i], right[i]);
    }
    assert(left =~= right);
}

/// Reads the entries of a table. Fails with `TooShort` exactly when the last
/// record is cut short.
pub fn read_table(table: &[u8]) -> (read: Result<Vec<Entry>, Error>)
    ensures
        read is Ok <==> table@.len() % (ENTRY_SIZE as nat) == 0,
        read matches Ok(entries) ==> table_bytes(entries@) == table@,
        read matches Err(error) ==> error == Error::TooShort,
{
    let len = table.len();
    if len % ENTRY_SIZE != 0 {
        return Err(Error::TooShort);
    }
    let count = len / ENTRY_SIZE;
    let mut entries: Vec<Entry> = Vec::with_capacity(count);
    let mut i: usize = 0;
    while i < count
        invariant
            i <= count,
            len == table@.len(),
            len == count * ENTRY_SIZE,
            entries@.len() == i,
            table_bytes(entries@) == table@.subrange(0, i * ENTRY_SIZE),
        decreases count - i,
    {
        assert((i + 1) * ENTRY_SIZE <= count * ENTRY_SIZE) by (nonlinear_arith)
            requires
                i + 1 <= count,
        ;
        assert((i + 1) * ENTRY_SIZE == i * ENTRY_SIZE + ENTRY_SIZE) by (nonlinear_arith);
        let record = slice_subrange(table, i * ENTRY_SIZE, (i + 1) * ENTRY_SIZE);
        let ghost before = entries@;
        match Entry::from_bytes(record) {
            Ok(entry) => {
                entries.push(entry);
                proof {
                    assert(entries@.drop_last() =~= before);
                    assert(table_bytes(entries@) =~= table@.subrange(0, (i + 1) * ENTRY_SIZE));
                }
            },
            Err(error) => {
                // Not reached: the record has the size of an entry.
                assert(false);
                return Err(error);
            },
        }
        i += 1;
    }
    assert(table@.subrange(0, len as int) =~= table@);
    Ok(entries)
}

/// Writes the table of a list of entries.
pub fn write_table(entries: &[Entry]) -> (table: Vec<u8>)
    ensures
        table@ == table_bytes(entries@),
{
    let count = entries.len();
    let mut table: Vec<u8> = Vec::new();
    let mut i: usize = 0;
    while i < count
        invariant
            i <= count,
            count == entries@.len(),
            table@ == table_bytes(entries@.subrange(0, i as int)),
        decreases count - i,
    {
        let record = entries[i].to_bytes();
        table.extend_from_slice(record.as_slice());
        proof {
            let done = entries@.subrange(0, i + 1);
            assert(done.drop_last() =~= entries@.subrange(0, i as int));
            assert(table@ =~= table_bytes(done.drop_last()) + done.last().bytes());
        }
        i += 1;
    }
    assert(entries@.subrange(0, count as int) =~= entries@);
    table
}

/// Whether `header` is the header record at the front of `archive`.
pub open spec fn is_header_of(archive: Seq<u8>, header: PackedHeader) -> bool {
    &&& archive.len() >= HEADER_SIZE
    &&& header.bytes() == archive.subrange(0, HEADER_SIZE as int)
}

/// What checking an opened archive gives. A signature that the service
/// rejected comes first, then a key other than the expected one, then a table
/// that the archive does not hold in full, then a table with another digest
/// than the header records.
pub open spec fn verdict(
    archive: Seq<u8>,
    header: PackedHeader,
    public_key: [u8; 32],
    signature_valid: bool,
) -> Result<(), Error> {
    if !signature_valid {
        Err(Error::InvalidData)
    } else if header.public_key != public_key {
        Err(Error::InvalidKey)
    } else if header.table_end() > u64::MAX {
        Err(Error::Overflow)
    } else if archive.len() < header.table_end() {
        Err(Error::TooShort)
    } else if header.blake3 != blake3_digest(
        archive.subrange(HEADER_SIZE as int, header.table_end()),
    ) {
        Err(Error::InvalidBlake3)
    } else {
        Ok(())
    }
}

/// Whether `archive` starts with `header` and holds the whole entry table,
/// with the digest that the header records.
pub open spec fn is_verified(archive: Seq<u8>, header: PackedHeader) -> bool {
    &&& is_header_of(archive, header)
    &&& header.table_end() <= u64::MAX
    &&& header.table_end() <= archive.len()
    &&& header.blake3 == blake3_digest(archive.subrange(HEADER_SIZE as int, header.table_end()))
}

/// Compares the digest of an entry table with the digest that `header`
/// records for it. Fails with `InvalidBlake3` exactly when they differ.
pub fn check_table_digest(header: &PackedHeader, digest: &Digest) -> (checked: Result<(), Error>)
    ensures
        checked is Ok <==> header.blake3 == *digest,
        checked matches Err(error) ==> error == Error::InvalidBlake3,
{
    assert(*digest == header.blake3 <==> digest@ == header.blake3@) by {
        assert(digest@ == header.blake3@ ==> *digest =~= header.blake3);
    }
    if hash_eq(digest, &header.blake3) {
        Ok(())
    } else {
        Err(Error::InvalidBlake3)
    }
}

/// Decides what reading the entries gives, given what the read of the entry
/// table into `table` returned: the count of bytes read, or the failure. A
/// failed read fails the reading with that failure. A read that did not fill
/// `table` fails with `TooShort`, a table with another digest than `header`
/// records with `InvalidBlake3`, and a table whose last record is cut short
/// with `TooShort`. Else the entries are those of the table.
pub fn table_entries(header: &PackedHeader, read: Result<usize, Error>, table: &[u8]) -> (entries:
    Result<Vec<Entry>, Error>)
    ensures
        read matches Err(error) ==> entries == Err::<Vec<Entry>, Error>(error),
        read matches Ok(count) ==> if count != table@.len() {
            entries == Err::<Vec<Entry>, Error>(Error::TooShort)
        } else if header.blake3 != blake3_digest(table@) {
            entries == Err::<Vec<Entry>, Error>(Error::InvalidBlake3)
        } else if table@.len() % (ENTRY_SIZE as nat) != 0 {
            entries == Err::<Vec<Entry>, Error>(Error::TooShort)
        } else {
            entries matches Ok(list) && table_bytes(list@) == table@
        },
{
    match read {
        Err(error) => Err(error),
        Ok(count) => {
            if count != table.len() {
                return Err(Error::TooShort);
            }
            match check_table_digest(header, &hash(table)) {
                Ok(()) => read_table(table),
                Err(error) => Err(error),
            }
        },
    }
}

/// An archive whose header records another digest than the one that it was
/// made with is refused, whatever the signature service says of it.
///
/// Let an archive pass the checks with its header. Let the altered archive
/// have the same length and the same bytes behind the header, and let its
/// header name the same key, record the same number of entries and a digest
/// that differs in at least one bit. Then the altered archive fails the
/// checks, so that no verified source of it comes to be and none of its
/// entries is read: with `InvalidData` where the signature service rejects
/// the altered header, and with `InvalidBlake3` even if it does not.
pub proof fn lemma_altered_digest_is_refused(
    archive: Seq<u8>,
    header: PackedHeader,
    altered: Seq<u8>,
    altered_header: PackedHeader,
    public_key: [u8; 32],
    signature_valid: bool,
)
    requires
        verdict(archive, header, public_key, true) is Ok,
        altered.len() == archive.len(),
        altered.subrange(HEADER_SIZE as int, altered.len() as int) == archive.subrange(
            HEADER_SIZE as int,
            archive.len() as int,
        ),
        altered_header.public_key == header.public_key,
        altered_header.spec_count() == header.spec_count(),
        altered_header.blake3 != header.blake3,
    ensures
        verdict(altered, altered_header, public_key, signature_valid) == Err::<(), Error>(
            if signature_valid {
                Error::InvalidBlake3
            } else {
                Error::InvalidData
            },
        ),
{
    let end = header.table_end();
    assert(altered.subrange(HEADER_SIZE as int, end) =~= altered.subrange(
        HEADER_SIZE as int,
        altered.len() as int,
    ).subrange(0, end - HEADER_SIZE));
    assert(archive.subrange(HEADER_SIZE as int, end) =~= archive.subrange(
        HEADER_SIZE as int,
        archive.len() as int,
    ).subrange(0, end - HEADER_SIZE));
}

/// An archive that was altered behind its entry table only passes the checks
/// as it did before, and holds the same entries: what is wrong with its data
/// shows when the data is checked against its entry, and not before.
pub proof fn lemma_altered_data_still_opens(
    archive: Seq<u8>,
    altered: Seq<u8>,
    header: PackedHeader,
    public_key: [u8; 32],
    signature_valid: bool,
    entries: Seq<Entry>,
)
    requires
        is_header_of(archive, header),
        header.table_end() <= archive.len(),
        altered.len() == archive.len(),
        altered.subrange(0, header.table_end()) == archive.subrange(0, header.table_end()),
    ensures
        is_header_of(altered, header),
        verdict(altered, header, public_key, signature_valid) == verdict(
            archive,
            header,
            public_key,
            signature_valid,
        ),
        holds_entries(altered, entries) <==> holds_entries(archive, entries),
{
    let end = header.table_end();
    let head = archive.subrange(0, end);
    assert(end >= HEADER_SIZE) by (nonlinear_arith)
        requires
            end == HEADER_SIZE + header.spec_count() * ENTRY_SIZE,
            header.spec_count() >= 0,
    ;
    assert(altered.subrange(0, HEADER_SIZE as int) =~= altered.subrange(0, end).subrange(
        0,
        HEADER_SIZE as int,
    ));
    assert(archive.subrange(0, HEADER_SIZE as int) =~= head.subrange(0, HEADER_SIZE as int));
    assert(altered.subrange(128, HEADER_SIZE as int) =~= altered.subrange(0, end).subrange(
        128,
        HEADER_SIZE as int,
    ));
    assert(archive.subrange(128, HEADER_SIZE as int) =~= head.subrange(128, HEADER_SIZE as int));
    assert(altered.subrange(HEADER_SIZE as int, end) =~= altered.subrange(0, end).subrange(
        HEADER_SIZE as int,
        end,
    ));
    assert(archive.subrange(HEADER_SIZE as int, end) =~= head.subrange(HEADER_SIZE as int, end));
    assert(header.count@ =~= header.bytes().subrange(128, HEADER_SIZE as int));
    assert(archive.subrange(0, HEADER_SIZE as int).subrange(128, HEADER_SIZE as int)
        =~= archive.subrange(128, HEADER_SIZE as int));
    assert(stored_count(archive) == header.spec_count());
    assert(stored_count(altered) == header.spec_count());
    if entries.len() == header.spec_count() {
        assert(HEADER_SIZE + entries.len() * ENTRY_SIZE == end);
    }
}

/// An archive that was signed with another key than the expected one is
/// refused with `InvalidData` or `InvalidKey`, whatever digests it holds:
/// either its header names the other key, or it names the expected key and
/// the signature service rejects the signature.
pub proof fn lemma_other_key_is_refused(
    archive: Seq<u8>,
    header: PackedHeader,
    public_key: [u8; 32],
    signature_valid: bool,
)
    requires
        !signature_valid || header.public_key != public_key,
    ensures
        verdict(archive, header, public_key, signature_valid) == Err::<(), Error>(
            Error::InvalidData,
        ) || verdict(archive, header, public_key, signature_valid) == Err::<(), Error>(
            Error::InvalidKey,
        ),
{
}

/// An archive in memory whose header has been read. Nothing in it is trusted.
pub struct UnverifiedBuf<'a> {
    src: &'a [u8],
    header: PackedHeader,
}

impl<'a> UnverifiedBuf<'a> {
    #[verifier::type_invariant]
    spec fn holds_header(self) -> bool {
        is_header_of(self.src@, self.header)
    }

    /// The bytes of the archive.
    pub closed spec fn archive(&self) -> Seq<u8> {
        self.src@
    }

    /// The header record at the front of the archive.
    pub closed spec fn spec_header(&self) -> PackedHeader {
        self.header
    }

    /// Reads the header record at the front of `src`. Fails with `TooShort`
    /// exactly when `src` is shorter than a header.
    pub fn open(src: &'a [u8]) -> (opened: Result<UnverifiedBuf<'a>, Error>)
        ensures
            opened is Ok <==> src@.len() >= HEADER_SIZE,
            opened matches Ok(buf) ==> buf.archive() == src@ && is_header_of(src@, buf.header()),
            opened matches Err(error) ==> error == Error::TooShort,
    {
        if src.len() < HEADER_SIZE {
            return Err(Error::TooShort);
        }
        match PackedHeader::from_bytes(slice_subrange(src, 0, HEADER_SIZE)) {
            Ok(header) => Ok(UnverifiedBuf { src, header }),
            Err(error) => {
                // Not reached: the record has the size of a header.
                assert(false);
                Err(error)
            },
        }
    }

    /// The header record at the front of the archive.
    #[verifier::when_used_as_spec(spec_header)]
    pub fn header(&self) -> (header: PackedHeader)
        ensures
            header == self.spec_header(),
            is_header_of(self.archive(), header),
    {
        proof {
            use_type_invariant(self);
        }
        self.header
    }

    /// The signature that the header carries.
    pub fn signature(&self) -> (signature: [u8; 64])
        ensures
            signature == self.header().signature,
    {
        self.header.signature
    }

    /// The bytes that the signature covers: the header after the signature.
    pub fn signed_bytes(&self) -> (signed: &[u8])
        ensures
            signed@ == self.header().signed_bytes(),
            signed@ == self.archive().subrange(SIGNATURE_LEN as int, HEADER_SIZE as int),
    {
        proof {
            use_type_invariant(self);
            let record = self.src@.subrange(0, HEADER_SIZE as int);
            assert(self.header.signed_bytes() =~= self.header.bytes().subrange(
                SIGNATURE_LEN as int,
                HEADER_SIZE as int,
            ));
            assert(record.subrange(SIGNATURE_LEN as int, HEADER_SIZE as int) =~= self.src@.subrange(
                SIGNATURE_LEN as int,
                HEADER_SIZE as int,
            ));
        }
        slice_subrange(self.src, SIGNATURE_LEN, HEADER_SIZE)
    }

    /// Checks the archive against the key that it is expected to be signed
    /// with. `signature_valid` is what the signature service said of
    /// [`Self::signature`] over [`Self::signed_bytes`] under `public_key`.
    /// Returns the verified source exactly when [`verdict`] is `Ok`, and else
    /// the error that [`verdict`] names.
    pub fn verify(self, public_key: &[u8; 32], signature_valid: bool) -> (verified: Result<
        PackageBuf<'a>,
        Error,
    >)
        ensures
            verified matches Ok(package) ==> {
                &&& verdict(self.archive(), self.header(), *public_key, signature_valid) is Ok
                &&& package.archive() == self.archive()
            },
            verified matches Err(error) ==> verdict(
                self.archive(),
                self.header(),
                *public_key,
                signature_valid,
            ) == Err::<(), Error>(error),
    {
        proof {
            use_type_invariant(&self);
        }
        if !signature_valid {
            return Err(Error::InvalidData);
        }
        assert(self.header.public_key == *public_key <==> self.header.public_key@
            == public_key@) by {
            assert(self.header.public_key@ == public_key@ ==> self.header.public_key
                =~= *public_key);
        }
        if !same_bytes(self.header.public_key.as_slice(), public_key.as_slice()) {
            return Err(Error::InvalidKey);
        }
        let end = match self.header.size() {
            Some(end) => end,
            None => {
                return Err(Error::Overflow);
            },
        };
        if (self.src.len() as u64) < end {
            return Err(Error::TooShort);
        }
        let table = slice_subrange(self.src, HEADER_SIZE, end as usize);
        match check_table_digest(&self.header, &hash(table)) {
            Ok(()) => Ok(PackageBuf { src: self.src, header: self.header }),
            Err(error) => Err(error),
        }
    }
}

/// The number of entries that the header at the front of `archive` records.
pub open spec fn stored_count(archive: Seq<u8>) -> u64 {
    spec_u64_from_le_bytes(archive.subrange(128, HEADER_SIZE as int))
}

/// Whether `entries` are the entries of `archive`: as many as its header
/// records, with the table that follows the header.
pub open spec fn holds_entries(archive: Seq<u8>, entries: Seq<Entry>) -> bool {
    &&& entries.len() == stored_count(archive)
    &&& HEADER_SIZE + entries.len() * ENTRY_SIZE <= archive.len()
    &&& table_bytes(entries) == archive.subrange(
        HEADER_SIZE as int,
        HEADER_SIZE + entries.len() * ENTRY_SIZE,
    )
}

/// An archive holds one list of entries only.
pub proof fn lemma_entries_unique(archive: Seq<u8>, left: Seq<Entry>, right: Seq<Entry>)
    requires
        holds_entries(archive, left),
        holds_entries(archive, right),
    ensures
        left == right,
{
    lemma_table_injective(left, right);
}

/// The `len` bytes of the data of `entry` that lie `pos` bytes into it.
pub open spec fn entry_bytes(archive: Seq<u8>, entry: Entry, pos: int, len: int) -> Seq<u8> {
    if len <= 0 {
        Seq::empty()
    } else {
        archive.subrange(data_start(archive, entry) + pos, data_start(archive, entry) + pos + len)
    }
}

/// How many bytes of the data of `entry` a read at `offset` into it may
/// give to a buffer of `room` bytes: what is left of the entry, or the room.
pub open spec fn window_len(entry: Entry, offset: int, room: int) -> int {
    if offset > entry.size {
        0
    } else if entry.size - offset < room {
        entry.size - offset
    } else {
        room
    }
}

/// The number of bytes that header and entry table take in `archive`, going
/// by the count that its header records.
pub open spec fn table_end(archive: Seq<u8>) -> int {
    HEADER_SIZE + stored_count(archive) * ENTRY_SIZE
}

/// Where the data of `entry` starts in `archive`.
pub open spec fn data_start(archive: Seq<u8>, entry: Entry) -> int {
    table_end(archive) + entry.offset
}

/// What a read of the data of `entry` at `offset` gives when the source
/// itself does not fail: nothing past the end of the entry, `Overflow` where
/// the place to read from does not fit in 64 bits, `TooShort` where the
/// archive ends before the bytes asked for, and else as many bytes as
/// [`window_len`] says.
pub open spec fn entry_read(archive: Seq<u8>, entry: Entry, offset: int, room: int) -> Result<
    int,
    Error,
> {
    if offset > entry.size {
        Ok(0)
    } else if data_start(archive, entry) + offset > u64::MAX {
        Err(Error::Overflow)
    } else if data_start(archive, entry) + offset + window_len(entry, offset, room)
        > archive.len() {
        Err(Error::TooShort)
    } else {
        Ok(window_len(entry, offset, room))
    }
}

/// A verified archive behind positioned reads.
///
/// `archive` is what the source holds, and reading leaves it as it is. A
/// source is `reliable` when its reads cannot fail but by asking for bytes
/// that it does not hold; of any other source the methods say what holds if
/// a read succeeds.
pub trait PackageSrc: Sized {
    /// The bytes of the archive. Of a source that does not say what it
    /// holds, they are some bytes that nothing more is known of.
    open spec fn archive(&self) -> Seq<u8> {
        arbitrary()
    }

    /// Whether a read fails only where the archive ends before the bytes
    /// asked for, and else fills the buffer. A source that does not say so
    /// is not.
    open spec fn reliable(&self) -> bool {
        false
    }

    /// Reads into `buf` the bytes of the archive that start at `offset`,
    /// and returns how many were read.
    fn read_at(&mut self, offset: u64, buf: &mut [u8]) -> (read: Result<usize, Error>)
        ensures
            final(self).archive() == old(self).archive(),
            final(self).reliable() == old(self).reliable(),
            final(buf)@.len() == old(buf)@.len(),
            read matches Ok(count) ==> {
                &&& count <= old(buf)@.len()
                &&& offset + count <= old(self).archive().len()
                &&& final(buf)@.subrange(0, count as int) == old(self).archive().subrange(
                    offset as int,
                    offset + count,
                )
            },
            old(self).reliable() ==> (read is Ok <==> offset + old(buf)@.len() <= old(
                self,
            ).archive().len()),
            old(self).reliable() ==> (read matches Ok(count) ==> count == old(buf)@.len()),
            old(self).reliable() ==> (read matches Err(error) ==> error == Error::TooShort),
    ;

    /// The verified header of the archive.
    fn header(&self) -> (header: PackedHeader)
        ensures
            is_verified(self.archive(), header),
            self.reliable() ==> self.archive().len() <= usize::MAX,
    ;

    /// Reads the entries of the archive, in the order of the table. The
    /// table is read and its digest checked anew on every call: the source
    /// is read once, and [`table_entries`] decides on what that read
    /// returned.
    fn read_entries(&mut self) -> (entries: Result<Vec<Entry>, Error>)
        ensures
            final(self).archive() == old(self).archive(),
            final(self).reliable() == old(self).reliable(),
            entries matches Ok(list) ==> holds_entries(old(self).archive(), list@),
            old(self).reliable() ==> entries is Ok,
    {
        let header = self.header();
        let ghost archive = self.archive();
        let end = match header.size() {
            Some(end) => end,
            None => {
                return Err(Error::Overflow);
            },
        };
        let table_len = end - HEADER_SIZE as u64;
        if table_len > usize::MAX as u64 {
            return Err(Error::Overflow);
        }
        let mut table: Vec<u8> = vec![0u8; table_len as usize];
        let read = self.read_at(HEADER_SIZE as u64, table.as_mut_slice());
        proof {
            if let Ok(count) = read {
                if count == table@.len() {
                    assert(table@ =~= table@.subrange(0, count as int));
                }
            }
            assert(header.count@ =~= header.bytes().subrange(128, HEADER_SIZE as int));
            assert(archive.subrange(0, HEADER_SIZE as int).subrange(128, HEADER_SIZE as int)
                =~= archive.subrange(128, HEADER_SIZE as int));
            assert(header.spec_count() * ENTRY_SIZE % (ENTRY_SIZE as int) == 0)
                by (nonlinear_arith);
        }
        let entries = table_entries(&header, read, table.as_slice());
        proof {
            if let Ok(list) = &entries {
                lemma_table_len(list@);
                assert(list@.len() == header.spec_count()) by (nonlinear_arith)
                    requires
                        list@.len() * ENTRY_SIZE == header.spec_count() * ENTRY_SIZE,
                ;
            }
        }
        entries
    }

    /// Reads into `buf` data of `entry`, from `offset` bytes into it, and
    /// returns how many bytes were read. Never reads past the end of the
    /// entry, whatever the size of `buf`.
    fn read_entry(&mut self, entry: Entry, offset: u64, buf: &mut [u8]) -> (read: Result<
        usize,
        Error,
    >)
        ensures
            offset > entry.size ==> read == Ok::<usize, Error>(0),
            offset <= entry.size && data_start(old(self).archive(), entry) + offset > u64::MAX
                ==> read == Err::<usize, Error>(Error::Overflow),
            final(self).archive() == old(self).archive(),
            final(self).reliable() == old(self).reliable(),
            final(buf)@.len() == old(buf)@.len(),
            read matches Ok(count) ==> {
                let window = window_len(entry, offset as int, old(buf)@.len() as int);
                let start = data_start(old(self).archive(), entry) + offset;
                &&& count <= window
                &&& count > 0 ==> start + count <= old(self).archive().len()
                &&& final(buf)@.subrange(0, count as int) == entry_bytes(
                    old(self).archive(),
                    entry,
                    offset as int,
                    count as int,
                )
                &&& final(buf)@.subrange(window, old(buf)@.len() as int) == old(buf)@.subrange(
                    window,
                    old(buf)@.len() as int,
                )
            },
            old(self).reliable() ==> old(self).archive().len() <= usize::MAX,
            old(self).reliable() ==> (match read {
                Ok(count) => entry_read(
                    old(self).archive(),
                    entry,
                    offset as int,
                    old(buf)@.len() as int,
                ) == Ok::<int, Error>(count as int),
                Err(error) => entry_read(
                    old(self).archive(),
                    entry,
                    offset as int,
                    old(buf)@.len() as int,
                ) == Err::<int, Error>(error),
            }),
    {
        let header = self.header();
        proof {
            let archive = self.archive();
            assert(header.count@ =~= header.bytes().subrange(128, HEADER_SIZE as int));
            assert(archive.subrange(0, HEADER_SIZE as int).subrange(128, HEADER_SIZE as int)
                =~= archive.subrange(128, HEADER_SIZE as int));
        }
        if offset > entry.size {
            assert(buf@.subrange(0, 0) =~= Seq::<u8>::empty());
            return Ok(0);
        }
        let left = entry.size - offset;
        let room = buf.len();
        let window = if left < room as u64 {
            left as usize
        } else {
            room
        };
        let table_end = match header.size() {
            Some(end) => end,
            None => {
                return Err(Error::Overflow);
            },
        };
        let data = match table_end.checked_add(entry.offset) {
            Some(data) => data,
            None => {
                return Err(Error::Overflow);
            },
        };
        let start = match data.checked_add(offset) {
            Some(start) => start,
            None => {
                return Err(Error::Overflow);
            },
        };
        let ghost before = buf@;
        let (head, tail) = buf.split_at_mut(window);
        let read = self.read_at(start, head);
        proof {
            assert(buf@.subrange(window as int, room as int) =~= before.subrange(
                window as int,
                room as int,
            ));
            if let Ok(count) = read {
                assert(buf@.subrange(0, count as int) =~= head@.subrange(0, count as int));
                assert(buf@.subrange(0, count as int) =~= entry_bytes(
                    self.archive(),
                    entry,
                    offset as int,
                    count as int,
                ));
            }
        }
        read
    }
}

/// A verified archive in memory.
pub struct PackageBuf<'a> {
    src: &'a [u8],
    header: PackedHeader,
}

impl<'a> PackageBuf<'a> {
    #[verifier::type_invariant]
    spec fn verified(self) -> bool {
        is_verified(self.src@, self.header)
    }

}

impl<'a> PackageSrc for PackageBuf<'a> {
    closed spec fn archive(&self) -> Seq<u8> {
        self.src@
    }

    open spec fn reliable(&self) -> bool {
        true
    }

    fn read_at(&mut self, offset: u64, buf: &mut [u8]) -> (read: Result<usize, Error>) {
        let len = self.src.len();
        let room = buf.len();
        if offset > len as u64 || room as u64 > len as u64 - offset {
            return Err(Error::TooShort);
        }
        let start = offset as usize;
        let mut i: usize = 0;
        while i < room
            invariant
                i <= room,
                room == buf@.len(),
                len == self.src@.len(),
                start + room <= len,
                forall|k: int| 0 <= k < i ==> buf@[k] == self.src@[start + k],
            decreases room - i,
        {
            buf[i] = self.src[start + i];
            i += 1;
        }
        assert(buf@.subrange(0, room as int) =~= self.src@.subrange(
            offset as int,
            offset + room,
        ));
        Ok(room)
    }

    fn header(&self) -> (header: PackedHeader) {
        proof {
            use_type_invariant(self);
        }
        proof {
            assert(self.src@.len() == self.src.len());
        }
        self.header
    }
}

} // verus!
