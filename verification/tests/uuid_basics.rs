//! Basic behaviour of the `Uuid` type: the special values, the text
//! forms, the version/variant helpers and the byte conversions.

use uuid_altenc::{parse, Uuid};

#[test]
fn nil_round_trip() {
    assert_eq!(Uuid::nil().to_hex_dash(), "00000000-0000-0000-0000-000000000000");
    assert_eq!(Uuid::nil(), parse("00000000-0000-0000-0000-000000000000").unwrap());
}

#[test]
fn max_round_trip() {
    assert_eq!(Uuid::max().to_hex_dash(), "ffffffff-ffff-ffff-ffff-ffffffffffff");
    assert_eq!(Uuid::max(), parse("ffffffff-ffff-ffff-ffff-ffffffffffff").unwrap());
}

#[test]
fn display_matches_to_hex_dash() {
    let u: Uuid = "f81d4fae-7dec-11d0-a765-00a0c91e6bf6".parse().unwrap();
    // The display text of a UUID is its hex-dash form.
    assert_eq!(u.to_hex_dash(), "f81d4fae-7dec-11d0-a765-00a0c91e6bf6");
    assert_eq!(u.to_debug_string(), "Uuid(f81d4fae-7dec-11d0-a765-00a0c91e6bf6)");
}

#[test]
fn version_and_variant() {
    let u: Uuid = "f81d4fae-7dec-11d0-a765-00a0c91e6bf6".parse().unwrap();
    assert_eq!(u.version(), 1);
    assert_eq!(u.variant(), 0xa);
}

#[test]
fn into_and_from_array() {
    let bytes: [u8; 16] = [0x10; 16];
    let u: Uuid = bytes.into();
    let back: [u8; 16] = u.into();
    assert_eq!(back, bytes);
}

#[test]
fn try_from_slice_length_checked() {
    // 16-byte slice → ok; anything else → InvalidLength.
    let bytes = [0xa5u8; 16];
    let u = Uuid::try_from_slice(&bytes).unwrap();
    assert_eq!(u.as_bytes(), &bytes);
    assert!(Uuid::try_from_slice(&bytes[..15]).is_err());
    assert!(Uuid::try_from_slice(&[0u8; 17]).is_err());
    assert!(Uuid::try_from_slice(&[]).is_err());
}
