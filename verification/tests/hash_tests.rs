use baby_git::hash::{fanout_dir_name, hex_string_of};
use baby_git::{GitError, Sha1Hash};

fn sample_hash() -> Sha1Hash {
    Sha1Hash { bytes: (0u8..20u8).collect() }
}

#[test]
fn hex_string_renders_lower_case_pairs() {
    let h = sample_hash();
    assert_eq!(h.hex_string(), "000102030405060708090a0b0c0d0e0f10111213");
}

#[test]
fn hex_string_of_empty_is_empty() {
    assert_eq!(hex_string_of(&[]), "");
}

#[test]
fn storage_path_has_two_char_directory_and_38_char_file() {
    let h = sample_hash();
    let path = h.sha1_file_name();
    let parts: Vec<&str> = path.split('/').collect();
    assert_eq!(parts.len(), 2);
    assert_eq!(parts[0].len(), 2);
    assert_eq!(parts[1].len(), 38);
    assert_eq!(format!("{}{}", parts[0], parts[1]), h.hex_string());
}

#[test]
fn parse_hex_round_trips() {
    let text = "000102030405060708090a0b0c0d0e0f10111213";
    let h = Sha1Hash::parse_hex(text).unwrap();
    assert_eq!(h.bytes, sample_hash().bytes);
    assert_eq!(h.hex_string(), text);
}

#[test]
fn parse_hex_accepts_upper_case() {
    let h = Sha1Hash::parse_hex("ABCDEF0102030405060708090A0B0C0D0E0F1011").unwrap();
    assert_eq!(h.hex_string(), "abcdef0102030405060708090a0b0c0d0e0f1011");
}

#[test]
fn parse_hex_rejects_bad_digit() {
    let e = Sha1Hash::parse_hex("zz0102030405060708090a0b0c0d0e0f10111213").unwrap_err();
    assert!(matches!(e, GitError::DecodeError));
}

#[test]
fn parse_hex_rejects_odd_length() {
    let e = Sha1Hash::parse_hex("abc").unwrap_err();
    assert!(matches!(e, GitError::DecodeError));
}

#[test]
fn parse_hex_rejects_wrong_length() {
    let e = Sha1Hash::parse_hex("abcd").unwrap_err();
    assert!(matches!(e, GitError::SizeNotMatch));
}

#[test]
fn from_bytes_requires_twenty() {
    let e = Sha1Hash::from_bytes(&[1, 2, 3]).unwrap_err();
    assert!(matches!(e, GitError::SizeNotMatch));
    let h = Sha1Hash::from_bytes(&[7u8; 20]).unwrap();
    assert_eq!(h.bytes, vec![7u8; 20]);
}

#[test]
fn digest_is_repeatable() {
    let a = Sha1Hash::digest(b"hello\n");
    let b = Sha1Hash::digest(b"hello\n");
    assert_eq!(a.bytes, b.bytes);
    assert_eq!(a.bytes.len(), 20);
}

#[test]
fn fanout_names_cover_both_digits() {
    assert_eq!(fanout_dir_name(0), "00");
    assert_eq!(fanout_dir_name(10), "0a");
    assert_eq!(fanout_dir_name(171), "ab");
    assert_eq!(fanout_dir_name(255), "ff");
}
