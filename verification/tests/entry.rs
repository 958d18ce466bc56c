use pkgar::entry::{Entry, Mode, PERMISSION_BITS};
use pkgar::error::{EntryError, Error};

fn entry_at(path: &[u8]) -> Entry {
    Entry::new([7; 32], 0, 0, Mode::perm(), path).unwrap()
}

fn refused_component(path: &[u8]) -> Vec<u8> {
    let entry = entry_at(path);
    match entry.check_path() {
        Err(Error::Entry(carried, EntryError::InvalidPathComponent(component))) => {
            assert_eq!(carried, entry);
            component
        }
        other => panic!("expected an invalid component, got {:?}", other),
    }
}

#[test]
fn entry_constructor() -> Result<(), Error> {
    const ENTRY_DATA: &str = "some file contents";

    let hash = blake3::hash(ENTRY_DATA.as_bytes());

    let entry = Entry::new(
        hash.into(),
        0,
        ENTRY_DATA.len() as u64,
        Mode::perm(),
        "/some/filepath".as_bytes(),
    )?;

    entry.verify(hash.into(), ENTRY_DATA.len() as u64)
}

#[test]
fn new_keeps_what_it_is_given() {
    let mode = Mode::from_bits(0o644).unwrap();
    let entry = Entry::new([9; 32], 17, 11, mode, b"a/b.txt").unwrap();
    assert_eq!(entry.blake3(), [9; 32]);
    assert_eq!(entry.offset(), 17);
    assert_eq!(entry.size(), 11);
    assert_eq!(entry.mode, 0o644);
    assert_eq!(entry.mode().unwrap(), mode);
    assert_eq!(&entry.path[..7], b"a/b.txt");
    assert!(entry.path[7..].iter().all(|b| *b == 0));
    assert_eq!(entry.path_bytes(), b"a/b.txt");
}

#[test]
fn longest_path_that_fits() {
    let path = vec![b'x'; 255];
    let entry = Entry::new([0; 32], 0, 0, Mode::perm(), &path).unwrap();
    assert_eq!(entry.path_bytes(), &path[..]);
    assert_eq!(entry.path[255], 0);
}

#[test]
fn path_that_leaves_no_room_for_the_terminator_is_too_long() {
    let path = vec![b'x'; 256];
    assert_eq!(
        Entry::new([0; 32], 0, 0, Mode::perm(), &path).err(),
        Some(Error::PathTooLong(path))
    );
}

#[test]
fn longer_path_is_too_long() {
    let path = vec![b'y'; 1000];
    assert_eq!(
        Entry::new([0; 32], 0, 0, Mode::perm(), &path).err(),
        Some(Error::PathTooLong(path))
    );
}

#[test]
fn path_bytes_end_at_the_first_nul() {
    let entry = entry_at(b"ab\0cd");
    assert_eq!(entry.path_bytes(), b"ab");
}

#[test]
fn path_bytes_of_a_full_buffer() {
    let mut entry = entry_at(b"a");
    entry.path = [b'z'; 256];
    assert_eq!(entry.path_bytes(), &[b'z'; 256][..]);
}

#[test]
fn mode_bits() {
    assert_eq!(Mode::perm().bits(), 0o7777);
    assert_eq!(PERMISSION_BITS, 0o7777);
    assert_eq!(Mode::from_bits(0o600).unwrap().bits(), 0o600);
    assert_eq!(Mode::from_bits(0).unwrap().bits(), 0);
    assert_eq!(Mode::from_bits(0o7777), Some(Mode::perm()));
}

#[test]
fn mode_refuses_type_bits() {
    assert_eq!(Mode::from_bits(0o10000), None);
    assert_eq!(Mode::from_bits(0o100644 & 0xffff), None);
    assert_eq!(Mode::from_bits(u16::MAX), None);
}

#[test]
fn stored_mode_with_type_bits_is_invalid() {
    let mut entry = entry_at(b"a");
    entry.mode = 0o10644;
    assert_eq!(entry.mode().err(), Some(Error::InvalidMode(0o10644)));
}

#[test]
fn verify_accepts_matching_digest_and_size() {
    let entry = Entry::new([5; 32], 0, 42, Mode::perm(), b"f").unwrap();
    assert_eq!(entry.verify([5; 32], 42), Ok(()));
}

#[test]
fn verify_reports_sizes_actual_first() {
    let entry = Entry::new([5; 32], 0, 42, Mode::perm(), b"f").unwrap();
    assert_eq!(
        entry.verify([5; 32], 41),
        Err(Error::Entry(entry, EntryError::LengthMismatch(41, 42)))
    );
}

#[test]
fn verify_reports_size_before_digest() {
    let entry = Entry::new([5; 32], 0, 42, Mode::perm(), b"f").unwrap();
    assert_eq!(
        entry.verify([6; 32], 43),
        Err(Error::Entry(entry, EntryError::LengthMismatch(43, 42)))
    );
}

#[test]
fn verify_refuses_another_digest() {
    let entry = Entry::new([5; 32], 0, 42, Mode::perm(), b"f").unwrap();
    let mut digest = [5; 32];
    digest[31] ^= 1;
    assert_eq!(
        entry.verify(digest, 42),
        Err(Error::Entry(entry, EntryError::InvalidBlake3))
    );
}

#[test]
fn verify_tells_content_that_differs_in_one_byte() {
    let data = b"hello world".to_vec();
    let entry = Entry::new(
        pkgar::hash::hash(&data),
        0,
        data.len() as u64,
        Mode::perm(),
        b"f",
    )
    .unwrap();
    assert_eq!(entry.verify(pkgar::hash::hash(&data), 11), Ok(()));
    for i in 0..data.len() {
        let mut changed = data.clone();
        changed[i] ^= 0x20;
        assert_eq!(
            entry.verify(pkgar::hash::hash(&changed), 11),
            Err(Error::Entry(entry, EntryError::InvalidBlake3))
        );
    }
}

#[test]
fn check_path_returns_a_safe_path() {
    for path in [&b"a"[..], b"a/b.txt", b"usr/lib/x.so.1", b"...", b"a..b/.c", b"a/b/c/d/e"] {
        assert_eq!(entry_at(path).check_path(), Ok(path));
    }
}

#[test]
fn check_path_refuses_a_parent_reference() {
    assert_eq!(refused_component(b".."), b"..");
    assert_eq!(refused_component(b"../etc/passwd"), b"..");
    assert_eq!(refused_component(b"a/../b"), b"..");
    assert_eq!(refused_component(b"a/b/.."), b"..");
}

#[test]
fn check_path_refuses_a_root() {
    assert_eq!(refused_component(b"/"), b"/");
    assert_eq!(refused_component(b"/etc/passwd"), b"/");
    assert_eq!(refused_component(b"/some/filepath"), b"/");
}

#[test]
fn check_path_refuses_an_empty_component() {
    assert_eq!(refused_component(b""), b"");
    assert_eq!(refused_component(b"a//b"), b"");
    assert_eq!(refused_component(b"a/"), b"");
}

#[test]
fn check_path_refuses_the_current_directory() {
    assert_eq!(refused_component(b"."), b".");
    assert_eq!(refused_component(b"./a"), b".");
    assert_eq!(refused_component(b"a/./b"), b".");
}

#[test]
fn check_path_reports_the_first_fault() {
    assert_eq!(refused_component(b"a/./../b"), b".");
    assert_eq!(refused_component(b"a/.././/b"), b"..");
    assert_eq!(refused_component(b"//.."), b"/");
}

#[test]
fn entry_round_trips_through_its_record() {
    let entry = Entry::new(
        [0xab; 32],
        0x0102_0304_0506_0708,
        0x1112_1314_1516_1718,
        Mode::from_bits(0o755).unwrap(),
        b"bin/tool",
    )
    .unwrap();
    let bytes = entry.to_bytes();
    assert_eq!(bytes.len(), 306);
    assert!(bytes[..32].iter().all(|b| *b == 0xab));
    assert_eq!(&bytes[32..40], &[8, 7, 6, 5, 4, 3, 2, 1]);
    assert_eq!(&bytes[40..48], &[0x18, 0x17, 0x16, 0x15, 0x14, 0x13, 0x12, 0x11]);
    assert_eq!(&bytes[48..50], &[0xed, 0x01]);
    assert_eq!(&bytes[50..58], b"bin/tool");
    assert!(bytes[58..].iter().all(|b| *b == 0));
    assert_eq!(Entry::from_bytes(&bytes), Ok(entry));
    assert_eq!(Entry::from_packed(&entry.to_packed()), entry);
}

#[test]
fn truncated_entry_is_refused() {
    assert_eq!(Entry::from_bytes(&[0; 305]), Err(Error::TooShort));
    assert_eq!(Entry::from_bytes(&[0; 307]), Err(Error::TooLong));
}
