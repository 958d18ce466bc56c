//! The operations on whole archives: create, extract, remove, list, verify.
//!
//! They work on archives and files in memory. Whoever keeps them on disk
//! reads and writes there and takes from here what each operation decides.
//!
//! Each operation on a source reads the entries once and hands what that
//! reading returned to a function of its own, which decides the rest: for
//! `list` that is `list_entries`, and so on. Of a source that may fail for
//! reasons of its own, the operation itself can only say what holds if the
//! reading succeeds; what it does with a failure is said there.

use vstd::prelude::*;
use vstd::slice::slice_to_vec;
use vstd::bytes::{lemma_auto_spec_u64_to_from_le_bytes, spec_u64_to_le_bytes};
use crate::builder::{archive_bytes, is_entry_of, total_size, PackageBuilder};
use crate::entry::{lemma_mode_by_bits, lemma_padded_path, Entry, Mode, PERMISSION_BITS};
use crate::error::{EntryError, Error};
use crate::bytes::same_bytes;
use crate::ext::{extract_entry, extract_result, lemma_other_digest_is_invalid_blake3,
    PackageSrcExt};
use crate::hash::{blake3_digest, hash};
use crate::package::{data_start, entry_bytes, holds_entries, is_header_of, lemma_entries_unique,
    lemma_table_len, table_bytes, verdict, PackageSrc};
use crate::packed::{PackedHeader, ENTRY_SIZE, HEADER_SIZE, PATH_LEN};
use crate::path::{is_safe, reports_first_fault};
use crate::transaction::{all_safe, check_paths, is_first_refusal, remove_plan, install_plan,
    Transaction};

verus! {

/// A regular file: its path below the directory that an archive is made
/// from or applied to, its permission bits and its content.
#[derive(Clone, Debug, PartialEq, Eq)]
pub struct File {
    /// Path relative to the directory, with `/` between its components.
    pub path: Vec<u8>,
    /// Permission bits.
    pub mode: Mode,
    /// Content.
    pub data: Vec<u8>,
}

/// A file, with its path and content as sequences of bytes.
pub struct FileView {
    /// Path relative to the directory.
    pub path: Seq<u8>,
    /// Permission bits.
    pub mode: Mode,
    /// Content.
    pub data: Seq<u8>,
}

impl View for File {
    type V = FileView;

    open spec fn view(&self) -> FileView {
        FileView { path: self.path@, mode: self.mode, data: self.data@ }
    }
}

/// The files of a list, each with its path and content as sequences.
pub open spec fn views(files: Seq<File>) -> Seq<FileView> {
    Seq::new(files.len(), |i: int| files[i]@)
}

/// The content of the files, one after the other.
pub open spec fn data_of(files: Seq<FileView>) -> Seq<u8>
    decreases files.len(),
{
    if files.len() == 0 {
        Seq::empty()
    } else {
        data_of(files.drop_last()) + files.last().data
    }
}

/// Whether `entries` describe `files`, one entry for each file and in their
/// order, with the data of each file placed behind the data of the files
/// before it.
pub open spec fn is_packing(entries: Seq<Entry>, files: Seq<FileView>) -> bool {
    &&& entries.len() == files.len()
    &&& forall|i: int|
        0 <= i < files.len() ==> is_entry_of(
            #[trigger] entries[i],
            blake3_digest(files[i].data),
            data_of(files.subrange(0, i)).len() as int,
            files[i].data.len() as int,
            files[i].mode,
            files[i].path,
        )
}

/// Whether every path fits an entry record and the content of all files
/// together has a length that fits in 64 bits.
pub open spec fn can_pack(files: Seq<FileView>) -> bool {
    &&& forall|i: int| 0 <= i < files.len() ==> (#[trigger] files[i]).path.len() < PATH_LEN
    &&& data_of(files).len() <= u64::MAX
}

/// The content of a list of files is at least as long as the content of
/// the files at its front.
pub proof fn lemma_data_grows(files: Seq<FileView>, i: int)
    requires
        0 <= i <= files.len(),
    ensures
        data_of(files.subrange(0, i)).len() <= data_of(files).len(),
    decreases files.len(),
{
    if i == files.len() {
        assert(files.subrange(0, i) =~= files);
    } else {
        lemma_data_grows(files.drop_last(), i);
        assert(files.drop_last().subrange(0, i) =~= files.subrange(0, i));
    }
}

/// Packs `files` into an archive to be signed with the secret key that
/// belongs to `public_key`. Returns the builder, which holds an entry for
/// each file and names the bytes to sign, and the data region. Fails at the
/// first file whose path does not fit an entry record, with `PathTooLong`,
/// or whose content makes the data region outgrow 64 bits, with `Overflow`.
pub fn create(public_key: [u8; 32], files: &[File]) -> (created: Result<
    (PackageBuilder, Vec<u8>),
    Error,
>)
    ensures
        created is Ok <==> can_pack(views(files@)),
        created matches Ok((builder, data)) ==> {
            &&& builder.spec_public_key() == public_key
            &&& is_packing(builder.spec_entries(), views(files@))
            &&& data@ == data_of(views(files@))
        },
        created matches Err(error) ==> exists|i: int|
            {
                &&& 0 <= i < files@.len()
                &&& can_pack(#[trigger] views(files@).subrange(0, i))
                &&& if files@[i].path@.len() >= PATH_LEN {
                    error matches Error::PathTooLong(refused) && refused@ == files@[i].path@
                } else {
                    &&& error == Error::Overflow
                    &&& data_of(views(files@).subrange(0, i + 1)).len() > u64::MAX
                }
            },
{
    let count = files.len();
    let ghost all = views(files@);
    let mut builder = PackageBuilder::new(public_key);
    let mut data: Vec<u8> = Vec::new();
    let mut i: usize = 0;
    while i < count
        invariant
            i <= count,
            count == files@.len(),
            all == views(files@),
            builder.spec_public_key() == public_key,
            is_packing(builder.spec_entries(), all.subrange(0, i as int)),
            can_pack(all.subrange(0, i as int)),
            data@ == data_of(all.subrange(0, i as int)),
            total_size(builder.spec_entries()) == data@.len(),
        decreases count - i,
    {
        let file = &files[i];
        let ghost before = builder.spec_entries();
        let ghost done = all.subrange(0, i as int);
        let ghost next = all.subrange(0, i + 1);
        proof {
            assert(next.drop_last() =~= done);
            assert(next.last() == files@[i as int]@);
            lemma_data_grows(all, i + 1);
        }
        let added = builder.file(file.path.as_slice(), file.mode, file.data.as_slice(), &mut data);
        builder = match added {
            Ok(builder) => builder,
            Err(error) => {
                proof {
                    if file.path@.len() < PATH_LEN {
                        assert(data_of(next).len() > u64::MAX);
                    } else {
                        assert(all[i as int].path.len() >= PATH_LEN);
                    }
                    assert(!can_pack(all));
                }
                return Err(error);
            },
        };
        proof {
            let entries = builder.spec_entries();
            assert forall|k: int| 0 <= k < next.len() implies is_entry_of(
                #[trigger] entries[k],
                blake3_digest(next[k].data),
                data_of(next.subrange(0, k)).len() as int,
                next[k].data.len() as int,
                next[k].mode,
                next[k].path,
            ) by {
                if k < i {
                    assert(entries[k] == before[k]);
                    assert(next.subrange(0, k) =~= done.subrange(0, k));
                } else {
                    assert(next.subrange(0, k) =~= done);
                }
            }
            assert forall|k: int| 0 <= k < next.len() implies (#[trigger] next[k]).path.len()
                < PATH_LEN by {
                if k < i {
                    assert(next[k] == done[k]);
                }
            }
        }
        i += 1;
    }
    assert(all.subrange(0, count as int) =~= all);
    Ok((builder, data))
}

/// Decides what listing gives, given what reading the entries returned: the
/// entries, or the failure. A failed reading fails the listing with that
/// failure. Else the listing is the stored path of every entry, in the
/// order of the entries, whether the path is safe or not: an entry with an
/// unsafe path is listed, and refused only where something is to be done
/// at its path.
pub fn list_entries(read: Result<Vec<Entry>, Error>) -> (listed: Result<Vec<Vec<u8>>, Error>)
    ensures
        read matches Err(error) ==> listed == Err::<Vec<Vec<u8>>, Error>(error),
        read matches Ok(entries) ==> {
            &&& listed matches Ok(paths)
            &&& paths@.len() == entries@.len()
            &&& forall|i: int|
                0 <= i < paths@.len() ==> (#[trigger] paths@[i])@ == entries@[i].stored_path()
        },
{
    let entries = match read {
        Ok(entries) => entries,
        Err(error) => {
            return Err(error);
        },
    };
    let count = entries.len();
    let mut paths: Vec<Vec<u8>> = Vec::with_capacity(count);
    let mut i: usize = 0;
    while i < count
        invariant
            i <= count,
            count == entries@.len(),
            paths@.len() == i,
            forall|k: int| 0 <= k < i ==> (#[trigger] paths@[k])@ == entries@[k].stored_path(),
        decreases count - i,
    {
        paths.push(slice_to_vec(entries[i].path_bytes()));
        i += 1;
    }
    Ok(paths)
}

/// The paths of the files that the archive holds, in the order of its
/// entries. Fails only where the entries cannot be read: the entries are
/// read once, and [`list_entries`] decides on what that reading returned.
pub fn list<Src: PackageSrc>(src: &mut Src) -> (listed: Result<Vec<Vec<u8>>, Error>)
    ensures
        final(src).archive() == old(src).archive(),
        final(src).reliable() == old(src).reliable(),
        listed matches Ok(paths) ==> exists|entries: Seq<Entry>|
            {
                &&& #[trigger] holds_entries(old(src).archive(), entries)
                &&& paths@.len() == entries.len()
                &&& forall|i: int|
                    0 <= i < paths@.len() ==> (#[trigger] paths@[i])@ == entries[i].stored_path()
            },
        old(src).reliable() ==> listed is Ok,
{
    let read = src.read_entries();
    list_entries(read)
}

/// Decides what planning an installation gives, given what reading the
/// entries returned. A failed reading fails the planning with that failure.
/// Else the plan is what [`Transaction::install`] gives for the entries.
pub fn install_entries(read: Result<Vec<Entry>, Error>) -> (planned: Result<Transaction, Error>)
    ensures
        read matches Err(error) ==> planned == Err::<Transaction, Error>(error),
        read matches Ok(entries) ==> {
            &&& planned is Ok <==> all_safe(entries@)
            &&& planned matches Ok(transaction) ==> transaction@ == install_plan(entries@)
            &&& planned matches Err(error) ==> is_first_refusal(entries@, error)
        },
{
    match read {
        Ok(entries) => Transaction::install(entries.as_slice()),
        Err(error) => Err(error),
    }
}

/// The plan that installs the archive. Fails where the entries cannot be
/// read, and at the first entry whose path is not safe; then nothing is
/// planned. The entries are read once, and [`install_entries`] decides on
/// what that reading returned.
pub fn install<Src: PackageSrc>(src: &mut Src) -> (planned: Result<Transaction, Error>)
    ensures
        final(src).archive() == old(src).archive(),
        final(src).reliable() == old(src).reliable(),
        planned matches Ok(transaction) ==> exists|entries: Seq<Entry>|
            {
                &&& #[trigger] holds_entries(old(src).archive(), entries)
                &&& all_safe(entries)
                &&& transaction@ == install_plan(entries)
            },
        old(src).reliable() ==> forall|entries: Seq<Entry>| #[trigger]
            holds_entries(old(src).archive(), entries) ==> (match planned {
                Ok(_) => all_safe(entries),
                Err(error) => is_first_refusal(entries, error),
            }),
{
    let ghost archive = src.archive();
    let read = src.read_entries();
    proof {
        if let Ok(list) = &read {
            assert forall|other: Seq<Entry>| #[trigger] holds_entries(archive, other) implies other
                == list@ by {
                lemma_entries_unique(archive, other, list@);
            }
        }
    }
    install_entries(read)
}

/// Decides what planning a removal gives, given what reading the entries
/// returned. A failed reading fails the planning with that failure. Else
/// the plan is what [`Transaction::remove`] gives for the entries.
pub fn remove_entries(read: Result<Vec<Entry>, Error>) -> (planned: Result<Transaction, Error>)
    ensures
        read matches Err(error) ==> planned == Err::<Transaction, Error>(error),
        read matches Ok(entries) ==> {
            &&& planned is Ok <==> all_safe(entries@)
            &&& planned matches Ok(transaction) ==> transaction@ == remove_plan(entries@)
            &&& planned matches Err(error) ==> is_first_refusal(entries@, error)
        },
{
    match read {
        Ok(entries) => Transaction::remove(entries.as_slice()),
        Err(error) => Err(error),
    }
}

/// The plan that removes what installing the archive put in place. Fails
/// where the entries cannot be read, and at the first entry whose path is
/// not safe; then nothing is planned. The entries are read once, and
/// [`remove_entries`] decides on what that reading returned.
pub fn remove<Src: PackageSrc>(src: &mut Src) -> (planned: Result<Transaction, Error>)
    ensures
        final(src).archive() == old(src).archive(),
        final(src).reliable() == old(src).reliable(),
        planned matches Ok(transaction) ==> exists|entries: Seq<Entry>|
            {
                &&& #[trigger] holds_entries(old(src).archive(), entries)
                &&& all_safe(entries)
                &&& transaction@ == remove_plan(entries)
            },
        old(src).reliable() ==> forall|entries: Seq<Entry>| #[trigger]
            holds_entries(old(src).archive(), entries) ==> (match planned {
                Ok(_) => all_safe(entries),
                Err(error) => is_first_refusal(entries, error),
            }),
{
    let ghost archive = src.archive();
    let read = src.read_entries();
    proof {
        if let Ok(list) = &read {
            assert forall|other: Seq<Entry>| #[trigger] holds_entries(archive, other) implies other
                == list@ by {
                lemma_entries_unique(archive, other, list@);
            }
        }
    }
    remove_entries(read)
}

/// Whether `file` is what `entry` stands for in `archive`: the entry's path,
/// which is safe, its permission bits, and its data, which has the digest
/// that the entry records.
pub open spec fn is_file_of(archive: Seq<u8>, entry: Entry, file: FileView) -> bool {
    &&& file.path == entry.stored_path()
    &&& is_safe(file.path)
    &&& file.mode.bits() == entry.mode
    &&& file.data == entry_bytes(archive, entry, 0, entry.size as int)
    &&& entry.blake3 == blake3_digest(file.data)
    &&& entry.size > 0 ==> data_start(archive, entry) + entry.size <= archive.len()
}

/// Whether `files` are what `entries` stand for in `archive`, one file for
/// each entry and in their order.
pub open spec fn is_content(archive: Seq<u8>, entries: Seq<Entry>, files: Seq<FileView>) -> bool {
    &&& files.len() == entries.len()
    &&& forall|i: int|
        0 <= i < files.len() ==> is_file_of(archive, #[trigger] entries[i], files[i])
}

/// Whether each of `entries` can be extracted from `archive` through a
/// buffer of `room` bytes: its path is safe, its mode has permission bits
/// only, and its data lies in the archive with the size and the digest that
/// it records.
pub open spec fn can_extract(archive: Seq<u8>, entries: Seq<Entry>, room: int) -> bool {
    &&& all_safe(entries)
    &&& forall|i: int|
        0 <= i < entries.len() ==> (#[trigger] entries[i]).mode <= PERMISSION_BITS
            && extract_result(archive, entries[i], room) is Ok
}

/// Whether `error` is what extracting `entry` from `archive` through a
/// buffer of `room` bytes fails with, on a source that does not fail itself:
/// `InvalidMode`, which carries the mode, where the mode has other bits than
/// permission bits, and else what [`extract_result`] gives.
pub open spec fn is_extract_refusal(
    archive: Seq<u8>,
    entry: Entry,
    room: int,
    error: Error,
) -> bool {
    if entry.mode > PERMISSION_BITS {
        error == Error::InvalidMode(entry.mode)
    } else {
        extract_result(archive, entry, room) == Err::<(), Error>(error)
    }
}

/// Whether `error` is what extracting `entries` fails with: where a path is
/// not safe, what the check of the paths gives, and else what the first
/// entry that cannot be extracted fails with.
pub open spec fn is_first_extract_refusal(
    archive: Seq<u8>,
    entries: Seq<Entry>,
    room: int,
    error: Error,
) -> bool {
    if !all_safe(entries) {
        is_first_refusal(entries, error)
    } else {
        exists|i: int|
            {
                &&& 0 <= i < entries.len()
                &&& can_extract(archive, entries.subrange(0, i), room)
                &&& is_extract_refusal(archive, #[trigger] entries[i], room, error)
            }
    }
}

/// Where the entries before the one at index `k` can be extracted and the
/// data of that one lies in the archive in full, but with another digest
/// than the entry records, the extraction cannot succeed, and the failure
/// of the first entry that cannot be extracted is `InvalidBlake3` for the
/// entry at `k`: not `LengthMismatch`, and not the failure of another entry.
pub proof fn lemma_other_digest_fails_extraction(
    archive: Seq<u8>,
    entries: Seq<Entry>,
    k: int,
    room: int,
    error: Error,
)
    requires
        0 <= k < entries.len(),
        room > 0,
        all_safe(entries),
        can_extract(archive, entries.subrange(0, k), room),
        entries[k].mode <= PERMISSION_BITS,
        data_start(archive, entries[k]) + entries[k].size <= archive.len(),
        archive.len() <= u64::MAX,
        entries[k].blake3 != blake3_digest(
            entry_bytes(archive, entries[k], 0, entries[k].size as int),
        ),
        is_first_extract_refusal(archive, entries, room, error),
    ensures
        !can_extract(archive, entries, room),
        error == Error::Entry(entries[k], EntryError::InvalidBlake3),
{
    lemma_other_digest_is_invalid_blake3(archive, entries[k], room);
    let i = choose|i: int|
        {
            &&& 0 <= i < entries.len()
            &&& can_extract(archive, entries.subrange(0, i), room)
            &&& is_extract_refusal(archive, #[trigger] entries[i], room, error)
        };
    if i < k {
        assert(entries.subrange(0, k)[i] == entries[i]);
    } else if i > k {
        assert(entries.subrange(0, i)[k] == entries[k]);
    }
}

/// Decides what an extraction gives, given what reading the entries
/// returned, and extracts the files of the entries from `src` through
/// `buf`. A failed reading fails the extraction with that failure. Else
/// every path is checked before any data is read, and the data of every
/// file is checked against its entry while it is copied; the extraction
/// fails at the first entry that cannot be extracted.
pub fn extract_entries<Src: PackageSrcExt>(
    src: &mut Src,
    read: Result<Vec<Entry>, Error>,
    buf: &mut [u8],
) -> (extracted: Result<Vec<File>, Error>)
    ensures
        final(src).archive() == old(src).archive(),
        final(src).reliable() == old(src).reliable(),
        final(buf)@.len() == old(buf)@.len(),
        read matches Err(error) ==> extracted == Err::<Vec<File>, Error>(error),
        read matches Ok(entries) ==> {
            &&& !all_safe(entries@) ==> (extracted matches Err(error) && is_first_refusal(
                entries@,
                error,
            ))
            &&& extracted matches Ok(files) ==> (all_safe(entries@) && is_content(
                old(src).archive(),
                entries@,
                views(files@),
            ))
            &&& old(src).reliable() ==> (match extracted {
                Ok(_) => can_extract(old(src).archive(), entries@, old(buf)@.len() as int),
                Err(error) => is_first_extract_refusal(
                    old(src).archive(),
                    entries@,
                    old(buf)@.len() as int,
                    error,
                ),
            })
        },
{
    let ghost archive = src.archive();
    let ghost reliable = src.reliable();
    let ghost room = buf@.len() as int;
    let entries = match read {
        Ok(entries) => entries,
        Err(error) => {
            return Err(error);
        },
    };
    let paths = match check_paths(entries.as_slice()) {
        Ok(paths) => paths,
        Err(error) => {
            return Err(error);
        },
    };
    let count = entries.len();
    let mut files: Vec<File> = Vec::with_capacity(count);
    let mut failure: Option<Error> = None;
    let mut i: usize = 0;
    while i < count
        invariant_except_break
            failure is None,
        invariant
            i <= count,
            count == entries@.len(),
            paths@.len() == count,
            src.archive() == archive,
            src.reliable() == reliable,
            buf@.len() == room,
            all_safe(entries@),
            forall|k: int| 0 <= k < count ==> (#[trigger] paths@[k])@ == entries@[k].stored_path(),
            files@.len() == i,
            forall|k: int|
                0 <= k < i ==> is_file_of(archive, #[trigger] entries@[k], files@[k]@),
            reliable ==> forall|k: int|
                0 <= k < i ==> (#[trigger] entries@[k]).mode <= PERMISSION_BITS && extract_result(
                    archive,
                    entries@[k],
                    room,
                ) is Ok,
        ensures
            src.archive() == archive,
            src.reliable() == reliable,
            buf@.len() == room,
            failure is None ==> is_content(archive, entries@, views(files@)),
            reliable ==> (match failure {
                None => can_extract(archive, entries@, room),
                Some(error) => is_first_extract_refusal(archive, entries@, room, error),
            }),
        decreases count - i,
    {
        let entry = entries[i];
        proof {
            if reliable {
                assert forall|k: int| 0 <= k < i implies (#[trigger] entries@.subrange(
                    0,
                    i as int,
                )[k]).mode <= PERMISSION_BITS && extract_result(
                    archive,
                    entries@.subrange(0, i as int)[k],
                    room,
                ) is Ok by {
                    assert(entries@.subrange(0, i as int)[k] == entries@[k]);
                }
            }
            assert forall|k: int| 0 <= k < i implies is_safe(
                (#[trigger] entries@.subrange(0, i as int)[k]).stored_path(),
            ) by {
                assert(entries@.subrange(0, i as int)[k] == entries@[k]);
            }
            assert(reliable ==> can_extract(archive, entries@.subrange(0, i as int), room));
        }
        let mode = match entry.mode() {
            Ok(mode) => mode,
            Err(error) => {
                assert(is_extract_refusal(archive, entries@[i as int], room, error));
                failure = Some(error);
                break ;
            },
        };
        let mut data: Vec<u8> = Vec::new();
        match extract_entry(src, entry, &mut data, buf) {
            Ok(()) => {},
            Err(error) => {
                assert(reliable ==> is_extract_refusal(archive, entries@[i as int], room, error));
                failure = Some(error);
                break ;
            },
        }
        assert(data@ =~= entry_bytes(archive, entry, 0, entry.size as int));
        files.push(File { path: slice_to_vec(paths[i].as_slice()), mode, data });
        i += 1;
    }
    match failure {
        Some(error) => Err(error),
        None => Ok(files),
    }
}

/// Extracts the files of the archive into memory, reading through `buf`.
/// Every path is checked before any data is read, and the data of every
/// file is checked against its entry while it is copied. Fails at the first
/// entry that cannot be extracted. The entries are read once, and
/// [`extract_entries`] decides on what that reading returned.
pub fn extract<Src: PackageSrcExt>(src: &mut Src, buf: &mut [u8]) -> (extracted: Result<
    Vec<File>,
    Error,
>)
    ensures
        final(src).archive() == old(src).archive(),
        final(src).reliable() == old(src).reliable(),
        final(buf)@.len() == old(buf)@.len(),
        extracted matches Ok(files) ==> exists|entries: Seq<Entry>|
            {
                &&& #[trigger] holds_entries(old(src).archive(), entries)
                &&& all_safe(entries)
                &&& is_content(old(src).archive(), entries, views(files@))
            },
        old(src).reliable() ==> forall|entries: Seq<Entry>| #[trigger]
            holds_entries(old(src).archive(), entries) ==> (match extracted {
                Ok(_) => can_extract(old(src).archive(), entries, old(buf)@.len() as int),
                Err(error) => is_first_extract_refusal(
                    old(src).archive(),
                    entries,
                    old(buf)@.len() as int,
                    error,
                ),
            }),
{
    let ghost archive = src.archive();
    let read = src.read_entries();
    proof {
        if let Ok(list) = &read {
            assert forall|other: Seq<Entry>| #[trigger] holds_entries(archive, other) implies other
                == list@ by {
                lemma_entries_unique(archive, other, list@);
            }
        }
    }
    extract_entries(src, read, buf)
}

/// Whether the first of `files` at `path` is the file at index `at`.
pub open spec fn is_first_at(files: Seq<FileView>, path: Seq<u8>, at: int) -> bool {
    &&& 0 <= at < files.len()
    &&& files[at].path == path
    &&& forall|k: int| 0 <= k < at ==> (#[trigger] files[k]).path != path
}

/// Whether `files` hold at the path of `entry` a file with the size and the
/// digest that the entry records. Of several files at one path the first
/// counts.
pub open spec fn is_installed(entry: Entry, files: Seq<FileView>) -> bool {
    exists|at: int|
        {
            &&& #[trigger] is_first_at(files, entry.stored_path(), at)
            &&& files[at].data.len() == entry.size
            &&& blake3_digest(files[at].data) == entry.blake3
        }
}

/// Whether every one of `entries` has a safe path and is installed.
pub open spec fn all_installed(entries: Seq<Entry>, files: Seq<FileView>) -> bool {
    forall|i: int|
        0 <= i < entries.len() ==> is_safe((#[trigger] entries[i]).stored_path()) && is_installed(
            entries[i],
            files,
        )
}

/// Whether `error` is what checking `entry` against `files` fails with: what
/// [`Entry::check_path`] gives where the path is not safe, else `NotFound`,
/// which carries the path, where no file lies there, and else what
/// [`Entry::verify`] gives for the first file there.
pub open spec fn is_verify_refusal(entry: Entry, files: Seq<FileView>, error: Error) -> bool {
    let path = entry.stored_path();
    if !is_safe(path) {
        &&& error matches Error::Entry(carried, EntryError::InvalidPathComponent(component))
        &&& carried == entry
        &&& reports_first_fault(path, component@)
    } else if forall|k: int| 0 <= k < files.len() ==> (#[trigger] files[k]).path != path {
        error matches Error::NotFound(missing) && missing@ == path
    } else {
        exists|at: int|
            {
                &&& #[trigger] is_first_at(files, path, at)
                &&& if files[at].data.len() != entry.size {
                    error == Error::Entry(
                        entry,
                        EntryError::LengthMismatch(files[at].data.len() as u64, entry.size),
                    )
                } else {
                    &&& blake3_digest(files[at].data) != entry.blake3
                    &&& error == Error::Entry(entry, EntryError::InvalidBlake3)
                }
            }
    }
}

/// Whether `error` is what the first of `entries` that is not installed
/// fails with.
pub open spec fn is_first_verify_refusal(
    entries: Seq<Entry>,
    files: Seq<FileView>,
    error: Error,
) -> bool {
    exists|i: int|
        {
            &&& 0 <= i < entries.len()
            &&& all_installed(entries.subrange(0, i), files)
            &&& is_verify_refusal(#[trigger] entries[i], files, error)
        }
}

/// The index of the first of `files` at `path`, if there is one.
pub fn find(files: &[File], path: &[u8]) -> (found: Option<usize>)
    ensures
        found matches Some(at) ==> is_first_at(views(files@), path@, at as int),
        found is None ==> forall|k: int|
            0 <= k < files@.len() ==> (#[trigger] views(files@)[k]).path != path@,
{
    let count = files.len();
    let mut at: usize = 0;
    while at < count
        invariant
            at <= count,
            count == files@.len(),
            forall|k: int| 0 <= k < at ==> (#[trigger] views(files@)[k]).path != path@,
        decreases count - at,
    {
        if same_bytes(files[at].path.as_slice(), path) {
            return Some(at);
        }
        at += 1;
    }
    None
}

/// Decides what checking a directory gives, given what reading the entries
/// returned, and checks `files`, the content of the directory, against the
/// entries. A failed reading fails the check with that failure. Else the
/// check goes through the entries in turn: that the path is safe, that a
/// file lies there, and that this file has the size and the digest that the
/// entry records. It fails at the first entry for which one of these does
/// not hold: with what [`Entry::check_path`] gives, with `NotFound`, which
/// carries the path, or with what [`Entry::verify`] gives.
pub fn verify_entries(read: Result<Vec<Entry>, Error>, files: &[File]) -> (verified: Result<
    (),
    Error,
>)
    ensures
        read matches Err(error) ==> verified == Err::<(), Error>(error),
        read matches Ok(entries) ==> (match verified {
            Ok(_) => all_installed(entries@, views(files@)),
            Err(error) => is_first_verify_refusal(entries@, views(files@), error),
        }),
{
    let entries = match read {
        Ok(entries) => entries,
        Err(error) => {
            return Err(error);
        },
    };
    let count = entries.len();
    let ghost installed = views(files@);
    let mut i: usize = 0;
    proof {
        if count == 0 {
            assert(entries@.subrange(0, 0) =~= entries@);
        }
    }
    while i < count
        invariant
            i <= count,
            count == entries@.len(),
            read == Ok::<Vec<Entry>, Error>(entries),
            installed == views(files@),
            all_installed(entries@.subrange(0, i as int), installed),
            i == count ==> all_installed(entries@, installed),
        decreases count - i,
    {
        let entry = entries[i];
        let path = match entry.check_path() {
            Ok(path) => path,
            Err(error) => {
                assert(is_verify_refusal(entries@[i as int], installed, error));
                return Err(error);
            },
        };
        let at = match find(files, path) {
            Some(at) => at,
            None => {
                let error = Error::NotFound(slice_to_vec(path));
                assert(is_verify_refusal(entries@[i as int], installed, error));
                return Err(error);
            },
        };
        let data = files[at].data.as_slice();
        proof {
            assert(installed[at as int].data == data@);
            assert(is_first_at(installed, entry.stored_path(), at as int));
        }
        match entry.verify(hash(data), data.len() as u64) {
            Ok(()) => {},
            Err(error) => {
                assert(is_verify_refusal(entries@[i as int], installed, error));
                return Err(error);
            },
        }
        proof {
            assert(is_installed(entry, installed));
            assert forall|k: int| 0 <= k < i + 1 implies is_safe(
                (#[trigger] entries@.subrange(0, i + 1)[k]).stored_path(),
            ) && is_installed(entries@.subrange(0, i + 1)[k], installed) by {
                if k < i {
                    assert(entries@.subrange(0, i as int)[k] == entries@[k]);
                }
            }
            if i + 1 == count {
                assert(entries@.subrange(0, count as int) =~= entries@);
            }
        }
        i += 1;
    }
    Ok(())
}

/// Checks `files`, the content of a directory, against the archive: for
/// each entry in turn, that its path is safe, that a file lies there, and
/// that this file has the size and the digest that the entry records. Fails
/// where the entries cannot be read, and at the first entry for which one of
/// these does not hold. The entries are read once, and [`verify_entries`]
/// decides on what that reading returned.
pub fn verify<Src: PackageSrc>(src: &mut Src, files: &[File]) -> (verified: Result<(), Error>)
    ensures
        final(src).archive() == old(src).archive(),
        final(src).reliable() == old(src).reliable(),
        verified is Ok ==> exists|entries: Seq<Entry>| #[trigger]
            holds_entries(old(src).archive(), entries) && all_installed(entries, views(files@)),
        old(src).reliable() ==> forall|entries: Seq<Entry>| #[trigger]
            holds_entries(old(src).archive(), entries) ==> (match verified {
                Ok(_) => all_installed(entries, views(files@)),
                Err(error) => is_first_verify_refusal(entries, views(files@), error),
            }),
{
    let ghost archive = src.archive();
    let read = src.read_entries();
    proof {
        if let Ok(list) = &read {
            assert forall|other: Seq<Entry>| #[trigger] holds_entries(archive, other) implies other
                == list@ by {
                lemma_entries_unique(archive, other, list@);
            }
        }
    }
    verify_entries(read, files)
}

/// Whether a file can go through an archive and come back: its path is
/// safe, fits an entry record and holds no NUL, and its mode has permission
/// bits only.
pub open spec fn is_portable(file: FileView) -> bool {
    &&& file.path.len() < PATH_LEN
    &&& forall|k: int| 0 <= k < file.path.len() ==> file.path[k] != 0
    &&& is_safe(file.path)
    &&& file.mode.bits() <= PERMISSION_BITS
}

/// The content of the file at index `i` lies in the content of all files
/// behind the content of the files before it.
pub proof fn lemma_data_of_file(files: Seq<FileView>, i: int)
    requires
        0 <= i < files.len(),
    ensures
        data_of(files.subrange(0, i)).len() + files[i].data.len() <= data_of(files).len(),
        data_of(files).subrange(
            data_of(files.subrange(0, i)).len() as int,
            (data_of(files.subrange(0, i)).len() + files[i].data.len()) as int,
        ) == files[i].data,
    decreases files.len(),
{
    let front = files.drop_last();
    if i == files.len() - 1 {
        assert(files.subrange(0, i) =~= front);
        assert(data_of(files).subrange(
            data_of(front).len() as int,
            (data_of(front).len() + files[i].data.len()) as int,
        ) =~= files[i].data);
    } else {
        lemma_data_of_file(front, i);
        assert(front.subrange(0, i) =~= files.subrange(0, i));
        let start = data_of(files.subrange(0, i)).len() as int;
        assert(data_of(files).subrange(start, start + files[i].data.len()) =~= data_of(
            front,
        ).subrange(start, start + files[i].data.len()));
    }
}

/// Extracting an archive that was created from files gives those files
/// back: the same paths, permission bits and content, in the same order.
///
/// Let `entries` and `data` be what [`create`] gives for `files`, and
/// `archive` what [`PackageBuilder::write_archive`] makes of them with any
/// signature. Then the archive passes the checks of
/// [`crate::package::UnverifiedBuf::verify`] for the key that it was created
/// for, once the signature service accepts the signature. It holds the
/// entries. Each entry can be extracted through any buffer that is not
/// empty. And whatever files are the content of the archive, which is what
/// [`extract`] returns, are the files that it was created from.
pub proof fn lemma_extract_of_create(
    files: Seq<FileView>,
    entries: Seq<Entry>,
    data: Seq<u8>,
    signature: [u8; 64],
    public_key: [u8; 32],
    archive: Seq<u8>,
    room: int,
)
    requires
        forall|i: int| 0 <= i < files.len() ==> is_portable(#[trigger] files[i]),
        is_packing(entries, files),
        data == data_of(files),
        archive == archive_bytes(signature, public_key, entries, data),
        archive.len() <= usize::MAX,
        room > 0,
    ensures
        forall|header: PackedHeader| #[trigger]
            is_header_of(archive, header) ==> verdict(archive, header, public_key, true) is Ok,
        holds_entries(archive, entries),
        can_extract(archive, entries, room),
        forall|held: Seq<Entry>, extracted: Seq<FileView>|
            holds_entries(archive, held) && #[trigger] is_content(archive, held, extracted)
                ==> extracted == files,
{
    lemma_auto_spec_u64_to_from_le_bytes();
    lemma_table_len(entries);
    let table = table_bytes(entries);
    let digest = blake3_digest(table);
    let count = spec_u64_to_le_bytes(entries.len() as u64);
    let end = HEADER_SIZE + entries.len() * ENTRY_SIZE;
    assert(archive =~= signature@ + public_key@ + digest@ + count + table + data);
    assert(archive.subrange(128, HEADER_SIZE as int) =~= count);
    assert(archive.subrange(HEADER_SIZE as int, end) =~= table);
    assert forall|header: PackedHeader| #[trigger] is_header_of(archive, header) implies verdict(
        archive,
        header,
        public_key,
        true,
    ) is Ok by {
        let record = archive.subrange(0, HEADER_SIZE as int);
        assert(header.public_key@ =~= record.subrange(64, 96));
        assert(header.blake3@ =~= record.subrange(96, 128));
        assert(header.count@ =~= record.subrange(128, 136));
        assert(record.subrange(64, 96) =~= public_key@);
        assert(record.subrange(96, 128) =~= digest@);
        assert(record.subrange(128, 136) =~= count);
        assert(header.public_key =~= public_key);
        assert(header.blake3 =~= digest);
    }
    assert forall|i: int| 0 <= i < entries.len() implies {
        &&& is_safe((#[trigger] entries[i]).stored_path())
        &&& entries[i].stored_path() == files[i].path
        &&& entries[i].mode <= PERMISSION_BITS
        &&& extract_result(archive, entries[i], room) is Ok
        &&& entry_bytes(archive, entries[i], 0, entries[i].size as int) == files[i].data
    } by {
        assert(is_portable(files[i]));
        lemma_padded_path(files[i].path);
        lemma_data_of_file(files, i);
        let start = data_start(archive, entries[i]);
        assert(start == end + data_of(files.subrange(0, i)).len());
        if entries[i].size > 0 {
            assert(archive.subrange(start, start + entries[i].size) =~= data.subrange(
                start - end,
                start - end + entries[i].size,
            ));
        } else {
            assert(files[i].data =~= Seq::<u8>::empty());
        }
    }
    assert forall|held: Seq<Entry>, extracted: Seq<FileView>|
        holds_entries(archive, held) && #[trigger] is_content(
            archive,
            held,
            extracted,
        ) implies extracted == files by {
        lemma_entries_unique(archive, held, entries);
        assert forall|i: int| 0 <= i < files.len() implies extracted[i] == files[i] by {
            assert(is_file_of(archive, entries[i], extracted[i]));
            lemma_mode_by_bits(extracted[i].mode, files[i].mode);
        }
        assert(extracted =~= files);
    }
}

} // verus!
