use pkgar::builder::PackageBuilder;
use pkgar::entry::Mode;
use pkgar::error::Error;
use pkgar::hash::hash;
use pkgar::package::write_table;

const KEY: [u8; 32] = [0x44; 32];

#[test]
fn new_builder_is_empty() {
    let builder = PackageBuilder::new(KEY);
    assert!(builder.entries().is_empty());
    assert_eq!(builder.data_size(), 0);
}

#[test]
fn data_is_packed_densely() {
    let builder = PackageBuilder::new(KEY)
        .add([1; 32], 11, Mode::perm(), b"a")
        .unwrap()
        .add([2; 32], 0, Mode::perm(), b"b")
        .unwrap()
        .add([3; 32], 7, Mode::perm(), b"c")
        .unwrap()
        .add([4; 32], 1, Mode::perm(), b"d")
        .unwrap();
    let offsets: Vec<u64> = builder.entries().iter().map(|e| e.offset).collect();
    assert_eq!(offsets, vec![0, 11, 11, 18]);
    let sizes: Vec<u64> = builder.entries().iter().map(|e| e.size).collect();
    assert_eq!(sizes, vec![11, 0, 7, 1]);
    assert_eq!(builder.data_size(), 19);
}

#[test]
fn add_keeps_digest_mode_and_path() {
    let mode = Mode::from_bits(0o640).unwrap();
    let builder = PackageBuilder::new(KEY).add([9; 32], 5, mode, b"x/y").unwrap();
    let entry = builder.entries()[0];
    assert_eq!(entry.blake3, [9; 32]);
    assert_eq!(entry.mode, 0o640);
    assert_eq!(entry.path_bytes(), b"x/y");
}

#[test]
fn path_too_long_ends_the_build() {
    let path = vec![b'p'; 256];
    let added = PackageBuilder::new(KEY).add([0; 32], 1, Mode::perm(), &path);
    assert_eq!(added.err(), Some(Error::PathTooLong(path)));
}

#[test]
fn data_region_beyond_64_bits_ends_the_build() {
    let builder = PackageBuilder::new(KEY)
        .add([0; 32], u64::MAX - 1, Mode::perm(), b"a")
        .unwrap()
        .add([0; 32], 1, Mode::perm(), b"b")
        .unwrap();
    assert_eq!(builder.data_size(), u64::MAX);
    let added = builder.add([0; 32], 1, Mode::perm(), b"c");
    assert_eq!(added.err(), Some(Error::Overflow));
}

#[test]
fn path_too_long_comes_before_overflow() {
    let path = vec![b'p'; 300];
    let added = PackageBuilder::new(KEY)
        .add([0; 32], u64::MAX, Mode::perm(), b"a")
        .unwrap()
        .add([0; 32], 1, Mode::perm(), &path);
    assert_eq!(added.err(), Some(Error::PathTooLong(path)));
}

#[test]
fn file_hashes_and_appends_the_data() {
    let mut region = b"earlier".to_vec();
    let builder = PackageBuilder::new(KEY)
        .file(b"f", Mode::perm(), b"content", &mut region)
        .unwrap();
    assert_eq!(region, b"earliercontent");
    let entry = builder.entries()[0];
    assert_eq!(entry.blake3, hash(b"content"));
    assert_eq!(entry.size, 7);
    assert_eq!(entry.offset, 0);
}

#[test]
fn file_that_fails_leaves_the_region() {
    let mut region = b"earlier".to_vec();
    let added = PackageBuilder::new(KEY).file(&[b'p'; 256], Mode::perm(), b"content", &mut region);
    assert!(added.is_err());
    assert_eq!(region, b"earlier");
}

#[test]
fn signed_bytes_are_key_digest_and_count() {
    let builder = PackageBuilder::new(KEY)
        .add([1; 32], 11, Mode::perm(), b"a")
        .unwrap()
        .add([2; 32], 3, Mode::perm(), b"b")
        .unwrap();
    let signed = builder.signed_bytes();
    assert_eq!(signed.len(), 72);
    assert_eq!(&signed[..32], &KEY);
    assert_eq!(&signed[32..64], &hash(&write_table(builder.entries())));
    assert_eq!(&signed[64..], &[2, 0, 0, 0, 0, 0, 0, 0]);
}

#[test]
fn signed_bytes_of_an_empty_archive() {
    let signed = PackageBuilder::new(KEY).signed_bytes();
    assert_eq!(&signed[..32], &KEY);
    assert_eq!(&signed[32..64], &hash(b""));
    assert_eq!(&signed[64..], &[0; 8]);
}

#[test]
fn head_is_signature_signed_bytes_and_table() {
    let builder = PackageBuilder::new(KEY).add([1; 32], 11, Mode::perm(), b"a").unwrap();
    let head = builder.write_head([0x5a; 64]);
    assert_eq!(head.len(), 136 + 306);
    assert_eq!(&head[..64], &[0x5a; 64]);
    assert_eq!(&head[64..136], &builder.signed_bytes()[..]);
    assert_eq!(&head[136..], &write_table(builder.entries())[..]);
}

#[test]
fn archive_is_head_and_data() {
    let mut data = Vec::new();
    let builder = PackageBuilder::new(KEY)
        .file(b"a", Mode::perm(), b"one", &mut data)
        .unwrap()
        .file(b"b", Mode::perm(), b"two", &mut data)
        .unwrap();
    let archive = builder.write_archive([0x5a; 64], &data);
    let head = builder.write_head([0x5a; 64]);
    assert_eq!(&archive[..head.len()], &head[..]);
    assert_eq!(&archive[head.len()..], b"onetwo");
}
