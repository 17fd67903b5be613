use duplicate_finder::digest::{digest_to_hex, hamming, hex_to_digest};
use duplicate_finder::files::File;

fn md5_of_bytes(bytes: &[u8]) -> u128 {
    File::from_noihash("data.bin".to_string(), &bytes.to_vec())
        .unwrap()
        .md5
}

#[test]
fn md5_of_empty_input_is_the_known_digest() {
    let d = md5_of_bytes(b"");
    assert_eq!(digest_to_hex(d), b"d41d8cd98f00b204e9800998ecf8427e".to_vec());
}

#[test]
fn md5_of_abc_is_the_known_digest() {
    let d = md5_of_bytes(b"abc");
    assert_eq!(digest_to_hex(d), b"900150983cd24fb0d6963f7d28e17f72".to_vec());
}

#[test]
fn md5_depends_on_content() {
    let a = md5_of_bytes(b"abc");
    let b = md5_of_bytes(b"abd");
    assert_ne!(a, b);
    assert_eq!(a, md5_of_bytes(b"abc"));
}

#[test]
fn hamming_of_equal_values_is_zero() {
    assert_eq!(hamming(0, 0), 0);
    assert_eq!(hamming(0xdeadbeef, 0xdeadbeef), 0);
}

#[test]
fn hamming_counts_differing_bits() {
    assert_eq!(hamming(0b1011, 0b0001), 2);
    assert_eq!(hamming(u64::MAX, 0), 64);
    assert_eq!(hamming(1, 2), 2);
}

#[test]
fn hamming_is_symmetric() {
    assert_eq!(hamming(0x1234, 0x4321), hamming(0x4321, 0x1234));
}

#[test]
fn hex_encoding_is_32_lowercase_digits() {
    assert_eq!(digest_to_hex(0), b"00000000000000000000000000000000".to_vec());
    assert_eq!(digest_to_hex(255), b"000000000000000000000000000000ff".to_vec());
    assert_eq!(
        digest_to_hex(u128::MAX),
        b"ffffffffffffffffffffffffffffffff".to_vec()
    );
}

#[test]
fn hex_decoding_inverts_encoding() {
    for d in [0u128, 1, 255, 0xd41d8cd98f00b204e9800998ecf8427e, u128::MAX] {
        assert_eq!(hex_to_digest(&digest_to_hex(d)), Some(d));
    }
}

#[test]
fn hex_decoding_accepts_uppercase() {
    assert_eq!(
        hex_to_digest(&b"000000000000000000000000000000FF".to_vec()),
        Some(255)
    );
}

#[test]
fn hex_decoding_rejects_wrong_length() {
    assert_eq!(hex_to_digest(&b"ff".to_vec()), None);
    assert_eq!(hex_to_digest(&b"".to_vec()), None);
    assert_eq!(
        hex_to_digest(&b"000000000000000000000000000000ff0".to_vec()),
        None
    );
}

#[test]
fn hex_decoding_rejects_non_hex_digits() {
    assert_eq!(
        hex_to_digest(&b"zz000000000000000000000000000000".to_vec()),
        None
    );
}
