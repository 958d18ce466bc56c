use std::mem;

use pkgar::error::Error;
use pkgar::packed::{PackedEntry, PackedHeader, ENTRY_SIZE, HEADER_SIZE};

fn header_with_count(count: u64) -> PackedHeader {
    PackedHeader {
        signature: [1; 64],
        public_key: [2; 32],
        blake3: [3; 32],
        count: count.to_le_bytes(),
    }
}

#[test]
fn header_size() {
    assert_eq!(mem::size_of::<PackedHeader>(), 136);
}

#[test]
fn entry_size() {
    assert_eq!(mem::size_of::<PackedEntry>(), 306);
}

#[test]
fn record_sizes_match_the_constants() {
    assert_eq!(mem::size_of::<PackedHeader>(), HEADER_SIZE);
    assert_eq!(mem::size_of::<PackedEntry>(), ENTRY_SIZE);
    assert_eq!(mem::align_of::<PackedHeader>(), 1);
    assert_eq!(mem::align_of::<PackedEntry>(), 1);
}

#[test]
fn size_of_an_empty_archive_is_the_header() {
    assert_eq!(header_with_count(0).size(), Some(136));
}

#[test]
fn size_counts_every_entry() {
    assert_eq!(header_with_count(1).size(), Some(442));
    assert_eq!(header_with_count(2).size(), Some(748));
    assert_eq!(header_with_count(1000).size(), Some(306_136));
}

#[test]
fn size_is_none_on_overflow() {
    assert_eq!(header_with_count(u64::MAX).size(), None);
    assert_eq!(header_with_count(u64::MAX / 306 + 1).size(), None);
}

#[test]
fn size_at_the_edge_of_overflow() {
    // The product fits, the sum with the header does not.
    let count = u64::MAX / 306;
    assert!(count * 306 > u64::MAX - 136);
    assert_eq!(header_with_count(count).size(), None);
    let last = (u64::MAX - 136) / 306;
    assert_eq!(header_with_count(last).size(), Some(last * 306 + 136));
}

#[test]
fn count_is_little_endian() {
    let mut header = header_with_count(0);
    header.count = [1, 2, 0, 0, 0, 0, 0, 0];
    assert_eq!(header.count(), 513);
}

#[test]
fn header_bytes_are_the_fields_in_order() {
    let bytes = header_with_count(0x0102_0304_0506_0708).to_bytes();
    assert_eq!(bytes.len(), 136);
    assert!(bytes[..64].iter().all(|b| *b == 1));
    assert!(bytes[64..96].iter().all(|b| *b == 2));
    assert!(bytes[96..128].iter().all(|b| *b == 3));
    assert_eq!(&bytes[128..], &[8, 7, 6, 5, 4, 3, 2, 1]);
}

#[test]
fn header_round_trips_through_bytes() {
    let bytes: Vec<u8> = (0..136u32).map(|i| (i * 7 % 251) as u8).collect();
    let header = PackedHeader::from_bytes(&bytes).unwrap();
    assert_eq!(&header.signature[..], &bytes[..64]);
    assert_eq!(&header.public_key[..], &bytes[64..96]);
    assert_eq!(&header.blake3[..], &bytes[96..128]);
    assert_eq!(&header.count[..], &bytes[128..]);
    assert_eq!(header.to_bytes(), bytes);
}

#[test]
fn truncated_header_is_refused() {
    assert_eq!(PackedHeader::from_bytes(&[0; 135]).err(), Some(Error::TooShort));
    assert_eq!(PackedHeader::from_bytes(&[]).err(), Some(Error::TooShort));
}

#[test]
fn overlong_header_is_refused() {
    assert_eq!(PackedHeader::from_bytes(&[0; 137]).err(), Some(Error::TooLong));
}

#[test]
fn entry_record_round_trips_through_bytes() {
    let bytes: Vec<u8> = (0..306u32).map(|i| (i * 13 % 241) as u8).collect();
    let record = PackedEntry::from_bytes(&bytes).unwrap();
    assert_eq!(&record.blake3[..], &bytes[..32]);
    assert_eq!(&record.offset[..], &bytes[32..40]);
    assert_eq!(&record.size[..], &bytes[40..48]);
    assert_eq!(&record.mode[..], &bytes[48..50]);
    assert_eq!(&record.path[..], &bytes[50..]);
    assert_eq!(record.to_bytes(), bytes);
}

#[test]
fn truncated_entry_record_is_refused() {
    assert_eq!(PackedEntry::from_bytes(&[0; 305]).err(), Some(Error::TooShort));
}

#[test]
fn overlong_entry_record_is_refused() {
    assert_eq!(PackedEntry::from_bytes(&[0; 307]).err(), Some(Error::TooLong));
}
