use pkgar::builder::PackageBuilder;
use pkgar::entry::{Entry, Mode};
use pkgar::error::Error;
use pkgar::ext::{copy_and_hash, extract_entry, PackageSrcExt};
use pkgar::hash::hash;
use pkgar::package::{PackageSrc, UnverifiedBuf};
use pkgar::packed::PackedHeader;

const KEY: [u8; 32] = [0x77; 32];

/// A source that gives at most `most` bytes to a read, and fails every read
/// once `reads_left` is used up.
struct Halting {
    archive: Vec<u8>,
    header: PackedHeader,
    most: usize,
    reads_left: usize,
}

impl PackageSrc for Halting {
    fn read_at(&mut self, offset: u64, buf: &mut [u8]) -> Result<usize, Error> {
        if self.reads_left == 0 {
            return Err(Error::Io("no more reads".to_string()));
        }
        self.reads_left -= 1;
        let start = (offset as usize).min(self.archive.len());
        let count = buf.len().min(self.most).min(self.archive.len() - start);
        buf[..count].copy_from_slice(&self.archive[start..start + count]);
        Ok(count)
    }

    fn header(&self) -> PackedHeader {
        self.header
    }
}

impl PackageSrcExt for Halting {}

fn sample(most: usize, reads_left: usize) -> (Vec<Entry>, Halting) {
    let mut data = Vec::new();
    let builder = PackageBuilder::new(KEY)
        .file(b"first", Mode::perm(), b"hello world", &mut data)
        .unwrap()
        .file(b"second", Mode::perm(), b"0123456789", &mut data)
        .unwrap();
    let archive = builder.write_archive([0; 64], &data);
    let header = UnverifiedBuf::open(&archive).unwrap().header();
    let entries = builder.entries().clone();
    (entries, Halting { archive, header, most, reads_left })
}

#[test]
fn failure_of_the_source_is_passed_on() {
    let (entries, mut source) = sample(usize::MAX, 0);
    let failed = Error::Io("no more reads".to_string());
    assert_eq!(source.read_entries(), Err(failed.clone()));
    assert_eq!(source.read_entry(entries[0], 0, &mut [0u8; 4]), Err(failed.clone()));
    let mut out = Vec::new();
    assert_eq!(
        extract_entry(&mut source, entries[0], &mut out, &mut [0u8; 4]),
        Err(failed)
    );
    assert!(out.is_empty());
}

#[test]
fn entries_of_a_source_that_reads_in_full() {
    let (entries, mut source) = sample(usize::MAX, 1);
    assert_eq!(source.read_entries(), Ok(entries));
}

#[test]
fn short_read_of_the_table_is_too_short() {
    let (_, mut source) = sample(611, 1);
    assert_eq!(source.read_entries(), Err(Error::TooShort));
}

#[test]
fn table_that_changed_since_it_was_checked_is_refused() {
    let (_, mut source) = sample(usize::MAX, 1);
    source.archive[136 + 33] ^= 1;
    assert_eq!(source.read_entries(), Err(Error::InvalidBlake3));
}

#[test]
fn copy_goes_on_after_short_reads() {
    let (entries, mut source) = sample(3, usize::MAX);
    let mut reader = source.entry_reader(entries[0]);
    let mut out = Vec::new();
    let mut buf = [0u8; 8];
    assert_eq!(
        copy_and_hash(&mut reader, &mut out, &mut buf),
        Ok((11, hash(b"hello world")))
    );
    assert_eq!(out, b"hello world");
    assert_eq!(reader.pos, 11);
}

#[test]
fn copy_stops_when_the_source_fails() {
    let (entries, mut source) = sample(4, 2);
    let mut reader = source.entry_reader(entries[0]);
    let mut out = Vec::new();
    let mut buf = [0u8; 8];
    assert_eq!(
        copy_and_hash(&mut reader, &mut out, &mut buf),
        Err(Error::Io("no more reads".to_string()))
    );
    assert_eq!(out, b"hello wo");
    assert_eq!(reader.pos, 8);
}

#[test]
fn copy_ends_at_a_read_of_nothing() {
    let (entries, mut source) = sample(0, usize::MAX);
    let mut reader = source.entry_reader(entries[1]);
    let mut out = Vec::new();
    let mut buf = [0u8; 8];
    assert_eq!(copy_and_hash(&mut reader, &mut out, &mut buf), Ok((0, hash(b""))));
    assert!(out.is_empty());
}

#[test]
fn read_entry_never_passes_the_end_of_the_entry() {
    let (entries, mut source) = sample(usize::MAX, usize::MAX);
    let mut buf = [0xeeu8; 32];
    assert_eq!(source.read_entry(entries[0], 8, &mut buf), Ok(3));
    assert_eq!(&buf[..3], b"rld");
    assert!(buf[3..].iter().all(|b| *b == 0xee));
}
