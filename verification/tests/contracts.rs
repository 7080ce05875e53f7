//! Error variants, error messages, conversions and the library's laws on
//! concrete values.

use uuid_altenc::{
    from_base32, from_base32_hex, from_base36, from_base62id, from_base64, from_hex,
    from_ncname_32, from_ncname_58, from_ncname_64, parse, DecodeError, Uuid,
};

fn sample() -> Uuid {
    Uuid::from_u128(0xf81d4fae_7dec_11d0_a765_00a0c91e6bf6)
}

#[test]
fn invalid_length_reports_expected_and_got() {
    let e = from_base32("AAAA").unwrap_err();
    assert_eq!(e, DecodeError::InvalidLength { encoding: "base32", expected: 26, got: 4 });
    assert_eq!(e.to_message(), "base32: expected 26 characters, got 4");
}

#[test]
fn invalid_character_reports_input_index() {
    // '0' is not Base32: reported at its index in the whole input.
    let e = from_ncname_32("a0aaaaaaaaaaaaaaaaaaaaaaaa").unwrap_err();
    assert_eq!(e, DecodeError::InvalidCharacter { encoding: "ncname-32", position: 1, byte: b'0' });
    assert_eq!(e.to_message(), "ncname-32: invalid character '0' (0x30) at position 1");
    let s = "A!".to_owned() + &"A".repeat(20);
    assert_eq!(
        from_ncname_64(&s).unwrap_err(),
        DecodeError::InvalidCharacter { encoding: "ncname-64", position: 1, byte: b'!' }
    );
    // Dashed hex: the index in the input, dashes counted.
    let e = from_hex("f81d4fae-7dec-11d0-a765-00a0c91e6bfX").unwrap_err();
    assert_eq!(e, DecodeError::InvalidCharacter { encoding: "base16", position: 35, byte: b'X' });
    let e = from_hex("f81d4fae7-dec-11d0-a765-00a0c91e6bf6").unwrap_err();
    assert!(matches!(e, DecodeError::InvalidCharacter { position: 8, byte: b'7', .. }));
    // NCName-58: the bookend and the leading `1`s count too.
    let e = from_ncname_58("A11I__________________A").unwrap_err();
    assert_eq!(e, DecodeError::InvalidCharacter { encoding: "ncname-58", position: 3, byte: b'I' });
}

#[test]
fn invalid_character_message_escapes_and_replaces() {
    let nul = DecodeError::InvalidCharacter { encoding: "base64", position: 0, byte: 0 };
    assert_eq!(nul.to_message(), "base64: invalid character '\u{fffd}' (0x00) at position 0");
    let quote = DecodeError::InvalidCharacter { encoding: "Z85", position: 12, byte: b'\'' };
    assert_eq!(quote.to_message(), "Z85: invalid character '\\'' (0x27) at position 12");
    let backslash = DecodeError::InvalidCharacter { encoding: "Z85", position: 3, byte: b'\\' };
    assert_eq!(backslash.to_message(), "Z85: invalid character '\\\\' (0x5c) at position 3");
    let e = from_base64("\0\0\0\0\0\0\0\0\0\0\0\0\0\0\0\0\0\0\0\0\0\0").unwrap_err();
    assert_eq!(e.to_message(), nul.to_message());
}

#[test]
fn overflow_above_two_to_the_128() {
    let e = from_base36("ZZZZZZZZZZZZZZZZZZZZZZZZZ").unwrap_err();
    assert_eq!(e, DecodeError::Overflow { encoding: "base36" });
    assert_eq!(e.to_message(), "base36: input overflows 128 bits");
    // 2^128 - 1 still fits.
    assert_eq!(from_base36(&Uuid::max().to_base36()).unwrap(), Uuid::max());
}

#[test]
fn non_canonical_padding_detected() {
    let e = from_base32_hex("VVVVVVVVVVVVVVVVVVVVVVVVVV").unwrap_err();
    assert_eq!(e, DecodeError::NonCanonicalPadding { encoding: "base32hex" });
    assert_eq!(e.to_message(), "base32hex: non-canonical padding (corrupt input)");
}

#[test]
fn input_too_long_before_any_character() {
    let e = from_base36("!!!!!!!!!!!!!!!!!!!!!!!!!!!").unwrap_err();
    assert_eq!(e, DecodeError::InputTooLong { encoding: "base36", max: 26, got: 27 });
    assert_eq!(e.to_message(), "base36: input too long (27 > 26)");
    assert_eq!(
        from_base36("").unwrap_err(),
        DecodeError::InvalidLength { encoding: "base36", expected: 1, got: 0 }
    );
}

#[test]
fn scheme_violations_carry_their_reason() {
    let e = from_ncname_64("Q-B1Prn3sHQdlAKDJHmv2K").unwrap_err();
    assert_eq!(
        e.to_message(),
        "ncname-64: version/variant bookend must be in A–P (case must match canonical form)"
    );
    assert_eq!(
        from_ncname_64("AAAAAAAAAAAAAAAAAAAAAQ").unwrap_err(),
        DecodeError::SchemeViolation {
            encoding: "ncname-64",
            reason: "last character must be A–P (canonical form)"
        }
    );
    assert_eq!(
        from_ncname_58("A1_111111111111111____A").unwrap_err(),
        DecodeError::SchemeViolation {
            encoding: "ncname-58",
            reason: "underscore padding is non-canonical"
        }
    );
    assert_eq!(
        from_ncname_58("A_____________________A").unwrap_err(),
        DecodeError::SchemeViolation {
            encoding: "ncname-58",
            reason: "input is not the canonical encoding of its UUID"
        }
    );
    assert_eq!(
        from_base62id("7n42DGM5Tflk9n8mt7Fhc7").unwrap_err(),
        DecodeError::SchemeViolation {
            encoding: "base62id",
            reason: "sentinel byte mismatch (input is corrupt or not Base62id)"
        }
    );
    // An uppercase letter in NCName-32 is reported where it stands.
    assert_eq!(
        from_ncname_32("aaaaaaaaaaaaaaaaaaaaaaaaAa").unwrap_err(),
        DecodeError::InvalidCharacter { encoding: "ncname-32", position: 24, byte: b'A' }
    );
}

#[test]
fn ambiguous_length_message() {
    let e = parse(&"A".repeat(22)).unwrap_err();
    assert_eq!(e, DecodeError::AmbiguousLength { got: 22 });
    assert_eq!(
        e.to_message(),
        "parse: cannot autodetect encoding for 22-character input — call a specific from_* function"
    );
}

#[test]
fn parse_routes_by_length_and_fingerprint() {
    let u = sample();
    assert_eq!(parse(&u.to_hex()).unwrap(), u);
    assert_eq!(parse(&u.to_hex_dash()).unwrap(), u);
    assert_eq!(parse(&u.to_ncname_32()).unwrap(), u);
    assert_eq!(parse(&u.to_base85_z85()).unwrap(), u);
    // "V0EKVBJTTG8T19R502GCI7JBUO" holds digits: Base32hex.
    assert_eq!(parse(&u.to_base32_hex()).unwrap(), u);
    // Variant nibble 8 gives the bookend `I`, outside Base58: not routed
    // to UUID-NCName-58.
    let v8 = Uuid::from_u128(0x5df41881_3aed_3515_88a7_2f4a814cf09e);
    let nc = v8.to_ncname_58();
    assert!(nc.ends_with('I'));
    assert_ne!(parse(&nc).ok(), Some(v8));
    assert_eq!(from_ncname_58(&nc).unwrap(), v8);
}

#[test]
fn sortable_encodings_keep_order() {
    let a = Uuid::from_u128(0x017f22e2_79b0_7cc3_98c4_dc0c0c07398f);
    let b = Uuid::from_u128(0x017f22e2_79b0_7cc3_98c4_dc0c0c073990);
    assert!(a < b);
    assert!(a.to_hex() < b.to_hex());
    assert!(a.to_base32_hex() < b.to_base32_hex());
    assert!(a.to_base32_humans() < b.to_base32_humans());
    assert!(a.to_base64_sort() < b.to_base64_sort());
    assert!(a.to_base62_sort() < b.to_base62_sort());
    assert!(a.as_bytes() < b.as_bytes());
}

#[test]
fn ncname_strings_do_not_alias() {
    let u = sample();
    let canonical = u.to_ncname_32();
    assert_eq!(canonical, "b7aou7lt55qoqoziauder427wk");
    let mut aliased = canonical.clone().into_bytes();
    aliased[25] = b'A';
    assert!(from_ncname_32(std::str::from_utf8(&aliased).unwrap()).is_err());
    assert_eq!(from_ncname_64(&u.to_ncname_64()).unwrap(), u);
}

#[test]
fn base62id_starts_with_uppercase() {
    for u in [Uuid::nil(), Uuid::max(), sample()] {
        let s = u.to_base62id();
        assert_eq!(s.len(), 22);
        let first = s.as_bytes()[0];
        assert!((b'F'..=b'V').contains(&first));
    }
}

#[test]
fn conversions_agree_with_constructors() {
    let n: u128 = 0xf81d4fae_7dec_11d0_a765_00a0c91e6bf6;
    let u: Uuid = n.into();
    assert_eq!(u, sample());
    let back: u128 = u.into();
    assert_eq!(back, n);
    let bytes = *u.as_bytes();
    let from_slice = Uuid::try_from(&bytes[..]).unwrap();
    assert_eq!(from_slice, u);
    assert_eq!(
        Uuid::try_from(&bytes[..3]).unwrap_err(),
        DecodeError::InvalidLength { encoding: "raw-bytes", expected: 16, got: 3 }
    );
    let r: &[u8] = u.as_ref();
    assert_eq!(r, &bytes[..]);
    assert_eq!(u.into_bytes(), bytes);
}

#[test]
fn nil_encodes_to_zero_symbols() {
    assert_eq!(Uuid::nil().to_base36(), "0");
    assert_eq!(Uuid::nil().to_base58_btc(), "1");
    assert_eq!(Uuid::nil().to_hex(), "00000000000000000000000000000000");
    assert_eq!(Uuid::nil().to_u128(), 0);
    assert_eq!(Uuid::max().to_u128(), u128::MAX);
}

#[test]
fn case_folding_decoders_accept_either_case() {
    let u = sample();
    assert_eq!(from_base32("7aou7lt55qi5bj3facqmshtl6y").unwrap(), u);
    assert_eq!(from_base32_hex("v0ekvbjttg8t19r502gci7jbuo").unwrap(), u);
    assert_eq!(uuid_altenc::from_base32_humans("z0emzbkxxg8x19v502gcj7kbyr").unwrap(), u);
    assert_eq!(from_base36("eoswzolg3bsx0zn8otq1p8oom").unwrap(), u);
    assert_eq!(uuid_altenc::from_hex_dash("F81D4FAE-7DEC-11D0-A765-00A0C91E6BF6").unwrap(), u);
    // Base52 is case-sensitive: swapping case changes the value.
    assert_ne!(uuid_altenc::from_base52("fRAQVvVQubOeofxSpyopWuM").ok(), Some(u));
}

#[test]
fn u128_and_bytes_agree() {
    for n in [0u128, 1, 0xff, 1u128 << 127, u128::MAX, 0xf81d4fae_7dec_11d0_a765_00a0c91e6bf6] {
        let u = Uuid::from_u128(n);
        assert_eq!(u.to_u128(), n);
        assert_eq!(Uuid::from_bytes(n.to_be_bytes()), u);
    }
}

#[test]
fn ncname_and_base62id_outputs_are_identifiers() {
    let id_char = |b: u8| b.is_ascii_alphanumeric() || b == b'-' || b == b'_';
    for u in [Uuid::nil(), Uuid::max(), sample()] {
        for s in [u.to_ncname_32(), u.to_ncname_58(), u.to_ncname_64(), u.to_base62id()] {
            assert!(s.as_bytes()[0].is_ascii_alphabetic());
            assert!(s.bytes().all(id_char));
        }
    }
}

#[test]
fn only_encoder_outputs_decode() {
    let u = sample();
    // Base64: the last symbol carries 4 zero pad bits; `h` is 33, not a
    // multiple of 16.
    let good = u.to_base64();
    assert_eq!(good, "+B1Prn3sEdCnZQCgyR5r9g");
    assert!(matches!(
        from_base64("+B1Prn3sEdCnZQCgyR5r9h"),
        Err(DecodeError::NonCanonicalPadding { .. })
    ));
    // Z85: a group above 2^32 - 1 overflows instead of wrapping.
    assert_eq!(
        uuid_altenc::from_base85_z85("%%%%%EE4M)R!2>3:Stl>").unwrap_err(),
        DecodeError::Overflow { encoding: "Z85" }
    );
    assert_eq!(uuid_altenc::from_base85_z85("{-iekEE4M)R!2>3:Stl>").unwrap(), u);
    // Hex: other letter cases decode to the same UUID; nothing else does.
    assert_eq!(from_hex("F81D4FAE7DEC11D0A76500A0C91E6BF6").unwrap(), u);
    assert!(from_hex("f81d4fae7dec11d0a76500a0c91e6bf6 ").is_err());
    // Base62id: a different string never decodes to the same UUID.
    let id = u.to_base62id();
    assert_eq!(from_base62id(&id).unwrap(), u);
}

#[test]
fn ncname_bookends_carry_version_and_variant() {
    for n in [0u128, u128::MAX, 0x017f22e2_79b0_7cc3_98c4_dc0c0c07398f, 0xf81d4fae_7dec_11d0_a765_00a0c91e6bf6] {
        let u = Uuid::from_u128(n);
        let nc = u.to_ncname_64();
        assert_eq!(nc.as_bytes()[0], b'A' + u.version());
        assert_eq!(nc.as_bytes()[21], b'A' + u.variant());
        let nc32 = u.to_ncname_32();
        assert_eq!(nc32.as_bytes()[0], b'a' + u.version());
        assert_eq!(nc32.as_bytes()[25], b'a' + u.variant());
    }
}
