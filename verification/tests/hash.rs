use pkgar::hash::{hash, HASH_LEN};

fn hex(digest: &[u8]) -> String {
    digest.iter().map(|b| format!("{:02x}", b)).collect()
}

#[test]
fn digest_of_nothing() {
    assert_eq!(
        hex(&hash(b"")),
        "af1349b9f5f9a1a6a0404dea36dcc9499bcb25c9adc112b7cc9a93cae41f3262"
    );
}

#[test]
fn digest_has_hash_len_bytes() {
    assert_eq!(hash(b"x").len(), HASH_LEN);
    assert_eq!(HASH_LEN, 32);
}

#[test]
fn digest_is_that_of_blake3() {
    for input in [&b""[..], b"a", b"some file contents", &[0u8; 5000][..]] {
        let expected: [u8; 32] = blake3::hash(input).into();
        assert_eq!(hash(input), expected);
    }
}

#[test]
fn digest_depends_on_the_input() {
    assert_ne!(hash(b"a"), hash(b"b"));
    assert_ne!(hash(b""), hash(b"\0"));
    assert_ne!(hash(&[1; 32]), [1; 32]);
}
