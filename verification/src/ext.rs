//! Reading one entry's data as a stream, and copying a stream while hashing
//! it.
//!
//! What a source returns to a read is the source's own matter. What is made
//! of it is decided here, by functions that take the outcome of the read
//! as an argument: [`EntryReader::advance`] for a reader's position,
//! [`CopyHasher::step`] for a copy, [`check_copy`] for an extraction.

use vstd::prelude::*;
use vstd::slice::slice_subrange;
use crate::entry::Entry;
use crate::error::{EntryError, Error};
use crate::hash::{blake3_digest, hasher_finalize, hasher_input, hasher_new, hasher_update, Digest};
use crate::package::{data_start, entry_bytes, entry_read, window_len, PackageBuf, PackageSrc};

verus! {

/// A running digest of the bytes that go through a copy, with their count.
///
/// This is the part of a streaming copy that decides nothing about where
/// the bytes come from or go to: after each read, the bytes read are handed
/// to [`CopyHasher::update`] before they are written, and once a read gives
/// no bytes, [`CopyHasher::finalize`] tells what was copied.
pub struct CopyHasher {
    hasher: blake3::Hasher,
    written: u64,
}

impl CopyHasher {
    #[verifier::type_invariant]
    spec fn counts_input(self) -> bool {
        self.written == hasher_input(&self.hasher).len()
    }

    /// All bytes that went through so far.
    pub closed spec fn input(&self) -> Seq<u8> {
        hasher_input(&self.hasher)
    }

    /// A copy through which nothing went yet.
    pub fn new() -> (copy: CopyHasher)
        ensures
            copy.input() == Seq::<u8>::empty(),
    {
        CopyHasher { hasher: hasher_new(), written: 0 }
    }

    /// Takes in the bytes of one read. Fails with `Overflow` exactly when the
    /// count of bytes would not fit in 64 bits.
    pub fn update(self, chunk: &[u8]) -> (taken: Result<CopyHasher, Error>)
        ensures
            taken is Ok <==> self.input().len() + chunk@.len() <= u64::MAX,
            taken matches Ok(copy) ==> copy.input() == self.input() + chunk@,
            taken matches Err(error) ==> error == Error::Overflow,
    {
        proof {
            use_type_invariant(&self);
        }
        let len = chunk.len();
        if len as u64 > u64::MAX - self.written {
            return Err(Error::Overflow);
        }
        let CopyHasher { mut hasher, written } = self;
        hasher_update(&mut hasher, chunk);
        Ok(CopyHasher { hasher, written: written + len as u64 })
    }

    /// Decides how the copy goes on after one read of its source, given what
    /// the read returned: the bytes read, or the failure. A failed read ends
    /// the copy with that failure. A read of no bytes ends it with the count
    /// and the digest of what went through. Any other read is taken in, and
    /// the copy goes on; what was read is then to be written.
    pub fn step(self, read: Result<&[u8], Error>) -> (next: Result<CopyStep, Error>)
        ensures
            read matches Err(error) ==> next == Err::<CopyStep, Error>(error),
            read matches Ok(chunk) ==> if chunk@.len() == 0 {
                &&& next matches Ok(CopyStep::Done(written, digest))
                &&& written == self.input().len()
                &&& digest == blake3_digest(self.input())
            } else {
                &&& next is Ok <==> self.input().len() + chunk@.len() <= u64::MAX
                &&& next matches Ok(step) ==> step matches CopyStep::More(copy) && copy.input()
                    == self.input() + chunk@
                &&& next matches Err(error) ==> error == Error::Overflow
            },
    {
        match read {
            Err(error) => Err(error),
            Ok(chunk) => {
                if chunk.len() == 0 {
                    let (written, digest) = self.finalize();
                    Ok(CopyStep::Done(written, digest))
                } else {
                    match self.update(chunk) {
                        Ok(copy) => Ok(CopyStep::More(copy)),
                        Err(error) => Err(error),
                    }
                }
            },
        }
    }

    /// How many bytes went through.
    pub fn written(&self) -> (written: u64)
        ensures
            written == self.input().len(),
    {
        proof {
            use_type_invariant(self);
        }
        self.written
    }

    /// The count of the bytes that went through, and their digest.
    pub fn finalize(&self) -> (copied: (u64, Digest))
        ensures
            copied.0 == self.input().len(),
            copied.1 == blake3_digest(self.input()),
    {
        proof {
            use_type_invariant(self);
        }
        (self.written, hasher_finalize(&self.hasher))
    }
}

/// How the bytes that go through a copy are cut into reads does not matter
/// to its count and digest: taking in two chunks one after the other gives
/// what taking in both at once gives.
pub proof fn lemma_chunks_do_not_matter(before: Seq<u8>, first: Seq<u8>, second: Seq<u8>)
    ensures
        (before + first) + second == before + (first + second),
        ((before + first) + second).len() == before.len() + first.len() + second.len(),
        blake3_digest((before + first) + second) == blake3_digest(before + (first + second)),
{
    assert((before + first) + second =~= before + (first + second));
}

/// How a copy goes on after one read of its source.
pub enum CopyStep {
    /// The bytes read were taken in. They are to be written, and the source
    /// is to be read again.
    More(CopyHasher),
    /// The source is exhausted: the count of the bytes copied, and their
    /// digest.
    Done(u64, Digest),
}

/// A reader that gives access to the data of one entry of a source, from
/// its first byte on.
pub struct EntryReader<'a, Src: PackageSrc> {
    /// The source that is read.
    pub src: &'a mut Src,
    /// The entry whose data is read.
    pub entry: Entry,
    /// How many bytes of the entry's data were read so far.
    pub pos: u64,
}

impl<'a, Src: PackageSrc> EntryReader<'a, Src> {
    /// Takes note of what a read of the source at the reader's position
    /// returned, and returns it. A count of bytes moves the position on by as
    /// many; a failure leaves it where it is. Fails with `Overflow`, and
    /// leaves the position, where the new position would not fit in 64 bits.
    pub fn advance(&mut self, read: Result<usize, Error>) -> (advanced: Result<usize, Error>)
        ensures
            *final(final(self).src) == *final(old(self).src),
            *final(self).src == *old(self).src,
            final(self).entry == old(self).entry,
            read matches Err(error) ==> advanced == Err::<usize, Error>(error) && final(self).pos
                == old(self).pos,
            read matches Ok(count) ==> if old(self).pos + count <= u64::MAX {
                advanced == Ok::<usize, Error>(count) && final(self).pos == old(self).pos + count
            } else {
                advanced == Err::<usize, Error>(Error::Overflow) && final(self).pos == old(
                    self,
                ).pos
            },
    {
        match read {
            Ok(count) => {
                if count as u64 > u64::MAX - self.pos {
                    Err(Error::Overflow)
                } else {
                    self.pos = self.pos + count as u64;
                    Ok(count)
                }
            },
            Err(error) => Err(error),
        }
    }

    /// Reads the next bytes of the entry's data into `buf` and returns how
    /// many were read: none once the entry's data is exhausted. The source
    /// is read once, at the reader's position, and [`Self::advance`] decides
    /// on what that read returned.
    pub fn read(&mut self, buf: &mut [u8]) -> (read: Result<usize, Error>)
        ensures
            old(self).pos > old(self).entry.size ==> read == Ok::<usize, Error>(0),
            old(self).pos <= old(self).entry.size && data_start(
                old(self).src.archive(),
                old(self).entry,
            ) + old(self).pos > u64::MAX ==> read == Err::<usize, Error>(Error::Overflow),
            *final(final(self).src) == *final(old(self).src),
            final(self).src.archive() == old(self).src.archive(),
            final(self).src.reliable() == old(self).src.reliable(),
            final(self).entry == old(self).entry,
            final(buf)@.len() == old(buf)@.len(),
            read matches Ok(count) ==> {
                let archive = old(self).src.archive();
                let window = window_len(
                    old(self).entry,
                    old(self).pos as int,
                    old(buf)@.len() as int,
                );
                let start = data_start(archive, old(self).entry) + old(self).pos;
                &&& final(self).pos == old(self).pos + count
                &&& count <= window
                &&& count > 0 ==> start + count <= archive.len()
                &&& final(buf)@.subrange(0, count as int) == entry_bytes(
                    archive,
                    old(self).entry,
                    old(self).pos as int,
                    count as int,
                )
            },
            read is Err ==> final(self).pos == old(self).pos,
            old(self).src.reliable() ==> old(self).src.archive().len() <= usize::MAX,
            old(self).src.reliable() ==> (match read {
                Ok(count) => entry_read(
                    old(self).src.archive(),
                    old(self).entry,
                    old(self).pos as int,
                    old(buf)@.len() as int,
                ) == Ok::<int, Error>(count as int),
                Err(error) => entry_read(
                    old(self).src.archive(),
                    old(self).entry,
                    old(self).pos as int,
                    old(buf)@.len() as int,
                ) == Err::<int, Error>(error),
            }),
    {
        let read = self.src.read_entry(self.entry, self.pos, buf);
        self.advance(read)
    }
}

/// Sources that hand out readers of their entries.
pub trait PackageSrcExt: PackageSrc {
    /// A reader of the data of `entry` on this source, at its first byte.
    fn entry_reader(&mut self, entry: Entry) -> (reader: EntryReader<'_, Self>)
        ensures
            *reader.src == *old(self),
            reader.entry == entry,
            reader.pos == 0,
            *final(reader.src) == *final(self),
    {
        EntryReader { src: self, entry, pos: 0 }
    }
}

impl<'a> PackageSrcExt for PackageBuf<'a> {
}

/// How many bytes of the data of `entry` lie at `pos` and after.
pub open spec fn left_len(entry: Entry, pos: int) -> int {
    if pos > entry.size {
        0
    } else {
        entry.size - pos
    }
}

/// What copying the data of `entry` from `pos` on through a buffer of `room`
/// bytes gives when the source itself does not fail. With no room nothing is
/// copied. Else the copy takes all that is left of the entry, and fails
/// where [`entry_read`] fails: with `Overflow` where the place of the first
/// read does not fit in 64 bits, with `TooShort` where the archive ends
/// before the entry's data does.
pub open spec fn copy_len(archive: Seq<u8>, entry: Entry, pos: int, room: int) -> Result<
    int,
    Error,
> {
    let copied = if room == 0 {
        0
    } else {
        left_len(entry, pos)
    };
    if pos > entry.size {
        Ok(0)
    } else if data_start(archive, entry) + pos > u64::MAX {
        Err(Error::Overflow)
    } else if data_start(archive, entry) + pos + copied > archive.len() {
        Err(Error::TooShort)
    } else {
        Ok(copied)
    }
}

/// Copies what `read` still has to give into `write` by streaming it through
/// `buf`, and returns the number of bytes copied with their BLAKE3 digest.
/// A read of no bytes ends the copy; the first failure of a read ends it too
/// and is returned, with `write` holding what was copied until then. After
/// each read [`CopyHasher::step`] decides on what the read returned.
pub fn copy_and_hash<Src: PackageSrc>(
    read: &mut EntryReader<'_, Src>,
    write: &mut Vec<u8>,
    buf: &mut [u8],
) -> (copied: Result<(u64, Digest), Error>)
    ensures
        old(read).pos > old(read).entry.size ==> copied is Ok,
        old(read).pos <= old(read).entry.size && data_start(
            old(read).src.archive(),
            old(read).entry,
        ) + old(read).pos > u64::MAX ==> copied == Err::<(u64, Digest), Error>(Error::Overflow),
        *final(final(read).src) == *final(old(read).src),
        final(read).src.archive() == old(read).src.archive(),
        final(read).src.reliable() == old(read).src.reliable(),
        final(read).entry == old(read).entry,
        final(buf)@.len() == old(buf)@.len(),
        old(read).pos <= final(read).pos,
        final(write)@ == old(write)@ + entry_bytes(
            old(read).src.archive(),
            old(read).entry,
            old(read).pos as int,
            final(read).pos - old(read).pos,
        ),
        copied matches Ok((written, digest)) ==> {
            let archive = old(read).src.archive();
            let start = data_start(archive, old(read).entry) + old(read).pos;
            &&& final(read).pos == old(read).pos + written
            &&& written <= left_len(old(read).entry, old(read).pos as int)
            &&& written > 0 ==> start + written <= archive.len()
            &&& digest == blake3_digest(
                entry_bytes(archive, old(read).entry, old(read).pos as int, written as int),
            )
        },
        old(read).src.reliable() ==> (match copied {
            Ok((written, _)) => copy_len(
                old(read).src.archive(),
                old(read).entry,
                old(read).pos as int,
                old(buf)@.len() as int,
            ) == Ok::<int, Error>(written as int),
            Err(error) => copy_len(
                old(read).src.archive(),
                old(read).entry,
                old(read).pos as int,
                old(buf)@.len() as int,
            ) == Err::<int, Error>(error),
        }),
{
    let ghost archive = read.src.archive();
    let ghost entry = read.entry;
    let ghost pos0 = read.pos as int;
    let ghost start = data_start(archive, entry) + pos0;
    let ghost before = write@;
    let ghost room = buf@.len() as int;
    let ghost reliable = read.src.reliable();
    let mut copy = CopyHasher::new();
    let mut copied: Option<Result<(u64, Digest), Error>> = None;
    let ghost mut done = Seq::<u8>::empty();
    loop
        invariant_except_break
            copied is None,
            copy.input() == done,
        invariant
            0 <= pos0,
            pos0 == old(read).pos,
            entry.size <= u64::MAX,
            start == data_start(archive, entry) + pos0,
            *final(read.src) == *final(old(read).src),
            read.src.archive() == archive,
            read.src.reliable() == reliable,
            read.entry == entry,
            buf@.len() == room,
            read.pos == pos0 + done.len(),
            done.len() <= left_len(entry, pos0),
            done.len() > 0 ==> start + done.len() <= archive.len(),
            done.len() > 0 ==> room > 0,
            write@ == before + done,
            done == entry_bytes(archive, entry, pos0, done.len() as int),
        ensures
            copied is Some,
            *final(read.src) == *final(old(read).src),
            read.src.archive() == archive,
            read.src.reliable() == reliable,
            read.entry == entry,
            buf@.len() == room,
            read.pos == pos0 + done.len(),
            done.len() <= left_len(entry, pos0),
            done.len() > 0 ==> start + done.len() <= archive.len(),
            write@ == before + done,
            done == entry_bytes(archive, entry, pos0, done.len() as int),
            copied matches Some(Ok((written, digest))) ==> written == done.len() && digest
                == blake3_digest(done),
            pos0 > entry.size ==> copied matches Some(Ok(_)),
            pos0 <= entry.size && start > u64::MAX ==> copied == Some(
                Err::<(u64, Digest), Error>(Error::Overflow),
            ),
            reliable ==> (match copied {
                Some(Ok(_)) => copy_len(archive, entry, pos0, room) == Ok::<int, Error>(
                    done.len() as int,
                ),
                Some(Err(error)) => copy_len(archive, entry, pos0, room) == Err::<int, Error>(
                    error,
                ),
                None => true,
            }),
        decreases entry.size - read.pos,
    {
        let read_now = read.read(buf);
        let count: usize = match read_now {
            Ok(count) => count,
            Err(_) => 0,
        };
        let chunk = slice_subrange(buf, 0, count);
        let fed: Result<&[u8], Error> = match read_now {
            Ok(_) => Ok(chunk),
            Err(error) => Err(error),
        };
        proof {
            if fed is Ok && count > 0 {
                assert(count <= window_len(entry, pos0 + done.len(), room));
                assert(chunk@ == entry_bytes(archive, entry, pos0 + done.len(), count as int));
                assert(done.len() + count <= left_len(entry, pos0));
            }
        }
        match copy.step(fed) {
            Ok(CopyStep::More(next)) => {
                copy = next;
                write.extend_from_slice(chunk);
                proof {
                    assert(done + chunk@ =~= entry_bytes(archive, entry, pos0, done.len() + count));
                    done = done + chunk@;
                    assert(write@ =~= before + done);
                }
            },
            Ok(CopyStep::Done(written, digest)) => {
                copied = Some(Ok((written, digest)));
                break ;
            },
            Err(error) => {
                copied = Some(Err(error));
                break ;
            },
        }
    }
    match copied {
        Some(copied) => copied,
        None => Err(Error::Overflow),
    }
}

/// What [`extract_entry`] gives for `entry` through a buffer of `room`
/// bytes when the source itself does not fail: the failure of the copy if
/// it fails, else `LengthMismatch` if fewer bytes were copied than the entry
/// records, else `InvalidBlake3` if they have another digest.
pub open spec fn extract_result(archive: Seq<u8>, entry: Entry, room: int) -> Result<(), Error> {
    match copy_len(archive, entry, 0, room) {
        Err(error) => Err(error),
        Ok(written) => if written != entry.size {
            Err(Error::Entry(entry, EntryError::LengthMismatch(written as u64, entry.size)))
        } else if entry.blake3 != blake3_digest(entry_bytes(archive, entry, 0, written)) {
            Err(Error::Entry(entry, EntryError::InvalidBlake3))
        } else {
            Ok(())
        },
    }
}

/// Where the data of an entry lies in the archive in full and has another
/// digest than the entry records, extracting it through a buffer that is
/// not empty fails with `InvalidBlake3`, and not with `LengthMismatch`.
pub proof fn lemma_other_digest_is_invalid_blake3(archive: Seq<u8>, entry: Entry, room: int)
    requires
        room > 0,
        data_start(archive, entry) + entry.size <= archive.len(),
        archive.len() <= u64::MAX,
        entry.blake3 != blake3_digest(entry_bytes(archive, entry, 0, entry.size as int)),
    ensures
        extract_result(archive, entry, room) == Err::<(), Error>(
            Error::Entry(entry, EntryError::InvalidBlake3),
        ),
{
}

/// Decides what extracting `entry` gives, given what the copy of its data
/// returned: the count of bytes copied with their digest, or the failure. A
/// failed copy fails the extraction with that failure. Else the count and
/// the digest are checked against the entry, as [`Entry::verify`] does.
pub fn check_copy(entry: &Entry, copied: Result<(u64, Digest), Error>) -> (checked: Result<
    (),
    Error,
>)
    ensures
        copied matches Err(error) ==> checked == Err::<(), Error>(error),
        copied matches Ok((written, digest)) ==> {
            &&& checked is Ok <==> written == entry.size && digest == entry.blake3
            &&& written != entry.size ==> checked == Err::<(), Error>(
                Error::Entry(*entry, EntryError::LengthMismatch(written, entry.size)),
            )
            &&& written == entry.size && digest != entry.blake3 ==> checked == Err::<(), Error>(
                Error::Entry(*entry, EntryError::InvalidBlake3),
            )
        },
{
    match copied {
        Ok((written, digest)) => entry.verify(digest, written),
        Err(error) => Err(error),
    }
}

/// Reads all the data of `entry` from `src` into `write`, through `buf`,
/// and checks that it has the size and the digest that the entry records.
/// This is what writes a file's content at installation. The data is copied
/// by [`copy_and_hash`], and [`check_copy`] decides on what the copy
/// returned.
pub fn extract_entry<Src: PackageSrcExt>(
    src: &mut Src,
    entry: Entry,
    write: &mut Vec<u8>,
    buf: &mut [u8],
) -> (extracted: Result<(), Error>)
    ensures
        data_start(old(src).archive(), entry) > u64::MAX ==> extracted == Err::<(), Error>(
            Error::Overflow,
        ),
        final(src).archive() == old(src).archive(),
        final(src).reliable() == old(src).reliable(),
        final(buf)@.len() == old(buf)@.len(),
        old(write)@.is_prefix_of(final(write)@),
        extracted is Ok ==> {
            let data = entry_bytes(old(src).archive(), entry, 0, entry.size as int);
            &&& entry.size > 0 ==> data_start(old(src).archive(), entry) + entry.size <= old(
                src,
            ).archive().len()
            &&& final(write)@ == old(write)@ + data
            &&& entry.blake3 == blake3_digest(data)
        },
        old(src).reliable() ==> (match extracted {
            Ok(_) => extract_result(old(src).archive(), entry, old(buf)@.len() as int) is Ok,
            Err(error) => extract_result(old(src).archive(), entry, old(buf)@.len() as int)
                == Err::<(), Error>(error),
        }),
{
    let mut reader = src.entry_reader(entry);
    let copied = copy_and_hash(&mut reader, write, buf);
    check_copy(&entry, copied)
}

} // verus!
