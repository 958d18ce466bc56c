use pkgar::builder::PackageBuilder;
use pkgar::entry::{Entry, Mode};
use pkgar::error::Error;
use pkgar::hash::hash;
use pkgar::package::{
    check_table_digest, read_table, table_entries, write_table, PackageBuf, PackageSrc,
    UnverifiedBuf,
};

const KEY: [u8; 32] = [0x11; 32];
const SIGNATURE: [u8; 64] = [0x22; 64];

fn sample() -> (Vec<Entry>, Vec<u8>) {
    let mut data = Vec::new();
    let builder = PackageBuilder::new(KEY)
        .file(b"a/b.txt", Mode::from_bits(0o644).unwrap(), b"hello world", &mut data)
        .unwrap()
        .file(b"c.txt", Mode::from_bits(0o600).unwrap(), b"", &mut data)
        .unwrap()
        .file(b"d", Mode::from_bits(0o755).unwrap(), b"0123456789", &mut data)
        .unwrap();
    (builder.entries().clone(), builder.write_archive(SIGNATURE, &data))
}

fn opened(archive: &[u8]) -> PackageBuf<'_> {
    UnverifiedBuf::open(archive).unwrap().verify(&KEY, true).unwrap()
}

#[test]
fn table_round_trips() {
    let (entries, _) = sample();
    let table = write_table(&entries);
    assert_eq!(table.len(), 3 * 306);
    assert_eq!(&table[..306], &entries[0].to_bytes()[..]);
    assert_eq!(&table[306..612], &entries[1].to_bytes()[..]);
    assert_eq!(&table[612..], &entries[2].to_bytes()[..]);
    assert_eq!(read_table(&table), Ok(entries));
}

#[test]
fn empty_table() {
    assert_eq!(write_table(&[]), Vec::<u8>::new());
    assert_eq!(read_table(&[]), Ok(Vec::new()));
}

#[test]
fn table_with_a_cut_record_is_refused() {
    let (entries, _) = sample();
    let table = write_table(&entries);
    assert_eq!(read_table(&table[..table.len() - 1]), Err(Error::TooShort));
    assert_eq!(read_table(&table[..1]), Err(Error::TooShort));
    assert_eq!(read_table(&table[..307]), Err(Error::TooShort));
}

#[test]
fn open_needs_a_whole_header() {
    let (_, archive) = sample();
    assert_eq!(UnverifiedBuf::open(&archive[..135]).err(), Some(Error::TooShort));
    assert_eq!(UnverifiedBuf::open(&[]).err(), Some(Error::TooShort));
    assert!(UnverifiedBuf::open(&archive[..136]).is_ok());
}

#[test]
fn open_shows_what_to_check() {
    let (entries, archive) = sample();
    let unverified = UnverifiedBuf::open(&archive).unwrap();
    assert_eq!(unverified.signature(), SIGNATURE);
    assert_eq!(unverified.signed_bytes(), &archive[64..136]);
    let header = unverified.header();
    assert_eq!(header.public_key, KEY);
    assert_eq!(header.blake3, hash(&write_table(&entries)));
    assert_eq!(header.count(), 3);
}

#[test]
fn verify_accepts_a_sound_archive() {
    let (_, archive) = sample();
    let package = UnverifiedBuf::open(&archive).unwrap().verify(&KEY, true).unwrap();
    assert_eq!(package.header().to_bytes(), &archive[..136]);
}

#[test]
fn rejected_signature_is_invalid_data() {
    let (_, archive) = sample();
    let verified = UnverifiedBuf::open(&archive).unwrap().verify(&KEY, false);
    assert_eq!(verified.err(), Some(Error::InvalidData));
}

#[test]
fn other_key_is_invalid_key() {
    let (_, archive) = sample();
    let mut other = KEY;
    other[0] ^= 1;
    let verified = UnverifiedBuf::open(&archive).unwrap().verify(&other, true);
    assert_eq!(verified.err(), Some(Error::InvalidKey));
}

#[test]
fn rejected_signature_comes_before_the_key() {
    let (_, archive) = sample();
    let verified = UnverifiedBuf::open(&archive).unwrap().verify(&[0; 32], false);
    assert_eq!(verified.err(), Some(Error::InvalidData));
}

#[test]
fn altered_header_digest_is_refused() {
    let (_, archive) = sample();
    for bit in 0..8 {
        for at in [96, 111, 127] {
            let mut altered = archive.clone();
            altered[at] ^= 1 << bit;
            let verified = UnverifiedBuf::open(&altered).unwrap().verify(&KEY, true);
            assert_eq!(verified.err(), Some(Error::InvalidBlake3));
        }
    }
}

#[test]
fn altered_table_is_refused() {
    let (_, archive) = sample();
    let mut altered = archive.clone();
    altered[136 + 40] ^= 1;
    let verified = UnverifiedBuf::open(&altered).unwrap().verify(&KEY, true);
    assert_eq!(verified.err(), Some(Error::InvalidBlake3));
}

#[test]
fn cut_table_is_too_short() {
    let (_, archive) = sample();
    let cut = &archive[..136 + 3 * 306 - 1];
    let verified = UnverifiedBuf::open(cut).unwrap().verify(&KEY, true);
    assert_eq!(verified.err(), Some(Error::TooShort));
}

#[test]
fn count_that_overflows_is_refused() {
    let (_, archive) = sample();
    let mut altered = archive.clone();
    altered[128..136].copy_from_slice(&u64::MAX.to_le_bytes());
    let verified = UnverifiedBuf::open(&altered).unwrap().verify(&KEY, true);
    assert_eq!(verified.err(), Some(Error::Overflow));
}

#[test]
fn count_beyond_the_archive_is_too_short() {
    let (_, archive) = sample();
    let mut altered = archive.clone();
    altered[128..136].copy_from_slice(&4u64.to_le_bytes());
    let verified = UnverifiedBuf::open(&altered).unwrap().verify(&KEY, true);
    assert_eq!(verified.err(), Some(Error::TooShort));
}

#[test]
fn altered_data_does_not_hinder_opening() {
    let (entries, archive) = sample();
    let mut altered = archive.clone();
    let last = altered.len() - 1;
    altered[last] ^= 1;
    let mut package = opened(&altered);
    assert_eq!(package.read_entries(), Ok(entries));
}

#[test]
fn read_entries_gives_the_table_in_order() {
    let (entries, archive) = sample();
    let mut package = opened(&archive);
    assert_eq!(package.read_entries(), Ok(entries.clone()));
    // Restartable: a second reading gives the same.
    assert_eq!(package.read_entries(), Ok(entries));
}

#[test]
fn read_entries_of_an_empty_archive() {
    let archive = PackageBuilder::new(KEY).write_archive(SIGNATURE, &[]);
    assert_eq!(archive.len(), 136);
    let mut package = opened(&archive);
    assert_eq!(package.read_entries(), Ok(Vec::new()));
}

#[test]
fn read_at_gives_the_bytes_at_the_offset() {
    let (_, archive) = sample();
    let mut package = opened(&archive);
    let mut buf = [0u8; 16];
    assert_eq!(package.read_at(64, &mut buf), Ok(16));
    assert_eq!(buf, [0x11; 16]);
    let tail = archive.len() as u64 - 10;
    let mut buf = [0u8; 10];
    assert_eq!(package.read_at(tail, &mut buf), Ok(10));
    assert_eq!(&buf, b"0123456789");
    assert_eq!(package.read_at(archive.len() as u64, &mut []), Ok(0));
}

#[test]
fn read_at_past_the_end_is_too_short() {
    let (_, archive) = sample();
    let mut package = opened(&archive);
    let mut buf = [0u8; 10];
    assert_eq!(package.read_at(archive.len() as u64 - 9, &mut buf), Err(Error::TooShort));
    assert_eq!(package.read_at(archive.len() as u64 + 1, &mut []), Err(Error::TooShort));
    assert_eq!(package.read_at(u64::MAX, &mut buf), Err(Error::TooShort));
}

#[test]
fn read_entry_stays_within_the_entry() {
    let (entries, archive) = sample();
    let mut package = opened(&archive);
    let mut buf = [0xffu8; 64];
    assert_eq!(package.read_entry(entries[0], 0, &mut buf), Ok(11));
    assert_eq!(&buf[..11], b"hello world");
    assert!(buf[11..].iter().all(|b| *b == 0xff));
}

#[test]
fn read_entry_from_an_offset() {
    let (entries, archive) = sample();
    let mut package = opened(&archive);
    let mut buf = [0u8; 3];
    assert_eq!(package.read_entry(entries[0], 6, &mut buf), Ok(3));
    assert_eq!(&buf, b"wor");
    assert_eq!(package.read_entry(entries[0], 9, &mut buf), Ok(2));
    assert_eq!(&buf[..2], b"ld");
    assert_eq!(package.read_entry(entries[2], 4, &mut buf), Ok(3));
    assert_eq!(&buf, b"456");
}

#[test]
fn read_entry_at_and_past_its_end_gives_nothing() {
    let (entries, archive) = sample();
    let mut package = opened(&archive);
    let mut buf = [0u8; 8];
    assert_eq!(package.read_entry(entries[0], 11, &mut buf), Ok(0));
    assert_eq!(package.read_entry(entries[0], 12, &mut buf), Ok(0));
    assert_eq!(package.read_entry(entries[0], u64::MAX, &mut buf), Ok(0));
    assert_eq!(package.read_entry(entries[1], 0, &mut buf), Ok(0));
}

#[test]
fn read_entry_beyond_the_archive_is_too_short() {
    let (entries, archive) = sample();
    let mut package = opened(&archive);
    let mut entry = entries[2];
    entry.size = 11;
    let mut buf = [0u8; 64];
    assert_eq!(package.read_entry(entry, 0, &mut buf), Err(Error::TooShort));
    // A smaller buffer keeps the read inside the archive.
    let mut buf = [0u8; 10];
    assert_eq!(package.read_entry(entry, 0, &mut buf), Ok(10));
}

#[test]
fn read_entry_with_an_offset_that_overflows() {
    let (entries, archive) = sample();
    let mut package = opened(&archive);
    let mut entry = entries[0];
    entry.offset = u64::MAX;
    let mut buf = [0u8; 4];
    assert_eq!(package.read_entry(entry, 0, &mut buf), Err(Error::Overflow));
    entry.offset = u64::MAX - 136 - 3 * 306;
    entry.size = 10;
    assert_eq!(package.read_entry(entry, 1, &mut buf), Err(Error::Overflow));
    assert_eq!(package.read_entry(entry, 0, &mut buf), Err(Error::TooShort));
}

#[test]
fn table_digest_is_compared_with_the_header() {
    let (entries, archive) = sample();
    let header = UnverifiedBuf::open(&archive).unwrap().header();
    let digest = hash(&write_table(&entries));
    assert_eq!(check_table_digest(&header, &digest), Ok(()));
    for at in [0, 15, 31] {
        let mut other = digest;
        other[at] ^= 0x80;
        assert_eq!(check_table_digest(&header, &other), Err(Error::InvalidBlake3));
    }
}

#[test]
fn table_entries_passes_a_failed_read_on() {
    let (entries, archive) = sample();
    let header = UnverifiedBuf::open(&archive).unwrap().header();
    let table = write_table(&entries);
    let failed = Error::Io("interrupted".to_string());
    assert_eq!(table_entries(&header, Err(failed.clone()), &table), Err(failed));
    assert_eq!(table_entries(&header, Err(Error::Overflow), &table), Err(Error::Overflow));
}

#[test]
fn table_entries_decides_on_a_read() {
    let (entries, archive) = sample();
    let header = UnverifiedBuf::open(&archive).unwrap().header();
    let table = write_table(&entries);
    assert_eq!(table_entries(&header, Ok(table.len()), &table), Ok(entries));
    // A read that did not fill the table.
    assert_eq!(table_entries(&header, Ok(table.len() - 1), &table), Err(Error::TooShort));
    assert_eq!(table_entries(&header, Ok(0), &table), Err(Error::TooShort));
    // A table that is not the one that the header was made for.
    let mut altered = table.clone();
    altered[5] ^= 1;
    assert_eq!(table_entries(&header, Ok(table.len()), &altered), Err(Error::InvalidBlake3));
    assert_eq!(
        table_entries(&header, Ok(306), &table[..306]),
        Err(Error::InvalidBlake3)
    );
}

#[test]
fn table_entries_refuses_a_cut_record() {
    let (entries, _) = sample();
    let table = write_table(&entries);
    let cut = &table[..table.len() - 6];
    let mut header = UnverifiedBuf::open(&sample().1).unwrap().header();
    header.blake3 = hash(cut);
    assert_eq!(table_entries(&header, Ok(cut.len()), cut), Err(Error::TooShort));
}
