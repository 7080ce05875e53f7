//! `parse`: pick a decoder from the input's length and, where one length
//! is shared by several encodings, from a sniff of its characters.
//!
//! * 36, 32 → lenient hex
//! * 26 → UUID-NCName-32 when the input has no uppercase letter and both
//!   ends lie in `a`–`p`; otherwise Base32hex when it holds a digit, and
//!   standard Base32 when it does not
//! * 25, 24 → Base36 (the only encoder reaching these lengths)
//! * 23 → UUID-NCName-58, unless a `0`, `O`, `I` or `l` (outside the
//!   Base58 alphabet) shows up: then Base52 for lowercase without
//!   digits, Base36 for digits without lowercase, ambiguous otherwise
//! * 20 → Z85
//! * anything else is ambiguous.

use vstd::prelude::*;

use crate::alphabets::Alphabet;
use crate::base16::{spec_from_hex, spec_hex, spec_hex_dash};
use crate::base32_64::{spec_from_base32, spec_to_base32};
use crate::base85::{spec_from_z85, spec_to_z85};
use crate::digits::min_digits;
use crate::error::DecodeError;
use crate::integer_encodings::{spec_from_integer, spec_to_integer};
use crate::ncname::{
    nc_variant, nc_version, spec_from_ncname_32, spec_from_ncname_58, spec_to_ncname_32,
    spec_to_ncname_58,
};
use crate::text::{ascii_text, lemma_ascii_utf8};
use crate::{
    decoded_as, from_base32, from_base32_hex, from_base36, from_base52, from_base85_z85, from_hex,
    from_ncname_32, from_ncname_58, uuid_limit, Uuid,
};
use vstd::string::StringSliceAdditionalSpecFns;
use vstd::utf8::encode_utf8;

verus! {

/// Some byte of `s` lies in `lo..=hi`.
pub open spec fn has_in_range(s: Seq<u8>, lo: u8, hi: u8) -> bool {
    exists|i: int| 0 <= i < s.len() && lo <= #[trigger] s[i] <= hi
}

/// Some byte of `s` is `0`, `O`, `I` or `l`, the four that the Base58
/// alphabet leaves out.
pub open spec fn has_non_base58_mark(s: Seq<u8>) -> bool {
    s.contains(0x30) || s.contains(0x4f) || s.contains(0x49) || s.contains(0x6c)
}

/// What `parse` decodes the bytes `s` to (see the module documentation
/// for the routing).
pub open spec fn spec_parse(s: Seq<u8>) -> Result<nat, DecodeError> {
    let n = s.len();
    if n == 36 || n == 32 {
        spec_from_hex(s)
    } else if n == 26 {
        if !has_in_range(s, 0x41, 0x5a) && 0x61 <= s[0] <= 0x70 && 0x61 <= s[25] <= 0x70 {
            spec_from_ncname_32(s)
        } else if has_in_range(s, 0x30, 0x39) {
            spec_from_base32(Alphabet::Base32Hex, "base32hex", s)
        } else {
            spec_from_base32(Alphabet::Base32Std, "base32", s)
        }
    } else if n == 24 || n == 25 {
        spec_from_integer(Alphabet::Base36, "base36", s)
    } else if n == 23 {
        if has_non_base58_mark(s) {
            if has_in_range(s, 0x61, 0x7a) && !has_in_range(s, 0x30, 0x39) {
                spec_from_integer(Alphabet::Base52, "base52", s)
            } else if has_in_range(s, 0x30, 0x39) && !has_in_range(s, 0x61, 0x7a) {
                spec_from_integer(Alphabet::Base36, "base36", s)
            } else {
                Err(DecodeError::AmbiguousLength { got: 23 })
            }
        } else {
            spec_from_ncname_58(s)
        }
    } else if n == 20 {
        spec_from_z85(s)
    } else {
        Err(DecodeError::AmbiguousLength { got: n as usize })
    }
}

/// Whether some byte of `bytes` lies in `lo..=hi`.
fn any_in_range(bytes: &[u8], lo: u8, hi: u8) -> (r: bool)
    ensures
        r == has_in_range(bytes@, lo, hi),
{
    let mut i: usize = 0;
    while i < bytes.len()
        invariant
            i <= bytes@.len(),
            forall|j: int| 0 <= j < i ==> !(lo <= #[trigger] bytes@[j] <= hi),
        decreases bytes@.len() - i,
    {
        if lo <= bytes[i] && bytes[i] <= hi {
            assert(lo <= bytes@[i as int] <= hi);
            return true;
        }
        i += 1;
    }
    false
}

/// Whether some byte of `bytes` is `0`, `O`, `I` or `l`.
fn any_non_base58_mark(bytes: &[u8]) -> (r: bool)
    ensures
        r == has_non_base58_mark(bytes@),
{
    let mut i: usize = 0;
    while i < bytes.len()
        invariant
            i <= bytes@.len(),
            forall|j: int|
                0 <= j < i ==> #[trigger] bytes@[j] != 0x30 && bytes@[j] != 0x4f && bytes@[j] != 0x49
                    && bytes@[j] != 0x6c,
        decreases bytes@.len() - i,
    {
        let b = bytes[i];
        if b == 0x30 || b == 0x4f || b == 0x49 || b == 0x6c {
            assert(bytes@[i as int] == b);
            return true;
        }
        i += 1;
    }
    false
}

/// Best-effort autodetect: pick an encoding from the input length and a
/// quick alphabet/case sniff (see [`spec_parse`]). Conservative: returns
/// [`DecodeError::AmbiguousLength`] when the length doesn't pin down a
/// unique encoding. 22-character inputs (Base62id, Base64url,
/// UUID-NCName-64 and the variable-width encodings all reach 22) are
/// always ambiguous.
pub fn parse(input: &str) -> (r: Result<Uuid, DecodeError>)
    ensures
        decoded_as(r, spec_parse(input.spec_bytes())),
{
    let bytes = input.as_bytes();
    let n = bytes.len();
    if n == 36 || n == 32 {
        from_hex(input)
    } else if n == 26 {
        let no_uppercase = !any_in_range(bytes, 0x41, 0x5a);
        if no_uppercase && 0x61 <= bytes[0] && bytes[0] <= 0x70 && 0x61 <= bytes[25] && bytes[25]
            <= 0x70 {
            return from_ncname_32(input);
        }
        if any_in_range(bytes, 0x30, 0x39) {
            from_base32_hex(input)
        } else {
            from_base32(input)
        }
    } else if n == 24 || n == 25 {
        from_base36(input)
    } else if n == 23 {
        if any_non_base58_mark(bytes) {
            let has_digit = any_in_range(bytes, 0x30, 0x39);
            let has_lower = any_in_range(bytes, 0x61, 0x7a);
            if has_lower && !has_digit {
                return from_base52(input);
            }
            if has_digit && !has_lower {
                return from_base36(input);
            }
            return Err(DecodeError::AmbiguousLength { got: 23 });
        }
        from_ncname_58(input)
    } else if n == 20 {
        from_base85_z85(input)
    } else {
        Err(DecodeError::AmbiguousLength { got: n })
    }
}

impl core::str::FromStr for Uuid {
    type Err = DecodeError;

    fn from_str(s: &str) -> (r: Result<Self, Self::Err>)
        ensures
            decoded_as(r, spec_parse(s.spec_bytes())),
    {
        parse(s)
    }
}

/// `parse` reads back every encoding whose length and characters pin it
/// down: both hex forms, UUID-NCName-32 and Z85 for every UUID;
/// Base32hex when its spelling holds a digit and standard Base32 when it
/// holds none; Base36 when it reaches 24 or 25 characters; Base52 when
/// its 23 characters show a lowercase letter and one of `O`, `I`, `l`;
/// and UUID-NCName-58 when neither bookend is `I` or `O` (nibbles 8 and
/// 14).
pub proof fn law_parse_routes(n: nat)
    requires
        n < uuid_limit(),
    ensures
        spec_parse(encode_utf8(ascii_text(spec_hex_dash(n)))) == Ok::<nat, DecodeError>(n),
        spec_parse(encode_utf8(ascii_text(spec_hex(n)))) == Ok::<nat, DecodeError>(n),
        spec_parse(encode_utf8(ascii_text(spec_to_ncname_32(n)))) == Ok::<nat, DecodeError>(n),
        spec_parse(encode_utf8(ascii_text(spec_to_z85(n)))) == Ok::<nat, DecodeError>(n),
        has_in_range(spec_to_base32(Alphabet::Base32Hex, n), 0x30, 0x39) ==> spec_parse(
            encode_utf8(ascii_text(spec_to_base32(Alphabet::Base32Hex, n))),
        ) == Ok::<nat, DecodeError>(n),
        !has_in_range(spec_to_base32(Alphabet::Base32Std, n), 0x30, 0x39) ==> spec_parse(
            encode_utf8(ascii_text(spec_to_base32(Alphabet::Base32Std, n))),
        ) == Ok::<nat, DecodeError>(n),
        spec_to_integer(Alphabet::Base36, n).len() >= 24 ==> spec_parse(
            encode_utf8(ascii_text(spec_to_integer(Alphabet::Base36, n))),
        ) == Ok::<nat, DecodeError>(n),
        spec_to_integer(Alphabet::Base52, n).len() == 23 && has_in_range(
            spec_to_integer(Alphabet::Base52, n),
            0x61,
            0x7a,
        ) && has_non_base58_mark(spec_to_integer(Alphabet::Base52, n)) ==> spec_parse(
            encode_utf8(ascii_text(spec_to_integer(Alphabet::Base52, n))),
        ) == Ok::<nat, DecodeError>(n),
        nc_version(n) != 8 && nc_version(n) != 14 && nc_variant(n) != 8 && nc_variant(n) != 14
            ==> spec_parse(encode_utf8(ascii_text(spec_to_ncname_58(n)))) == Ok::<nat, DecodeError>(
            n,
        ),
{
    crate::base16::law_hex_round_trip(n);
    crate::base85::law_z85_round_trip(n);
    // UUID-NCName-32: lowercase, with bookends in `a`–`p`.
    crate::ncname::law_ncname_32_round_trip(n);
    let t32 = encode_utf8(ascii_text(spec_to_ncname_32(n)));
    crate::ncname::lemma_caseless_run_props(t32);
    assert(!has_in_range(t32, 0x41, 0x5a));
    // The Base32 family: never a lowercase first symbol.
    crate::base32_64::lemma_layouts(Alphabet::Base32Hex);
    crate::base32_64::lemma_layouts(Alphabet::Base32Std);
    crate::base32_64::law_bitstream_round_trip(n, Alphabet::Base32Hex, "base32hex");
    crate::base32_64::law_bitstream_round_trip(n, Alphabet::Base32Std, "base32");
    crate::bitstream::lemma_bits_round_trip(Alphabet::Base32Hex, 8, 4, 26, n, "base32hex", 0);
    crate::bitstream::lemma_bits_round_trip(Alphabet::Base32Std, 8, 4, 26, n, "base32", 0);
    lemma_ascii_utf8(spec_to_base32(Alphabet::Base32Hex, n));
    lemma_ascii_utf8(spec_to_base32(Alphabet::Base32Std, n));
    crate::digits::lemma_fixed_below(n * 4, 32, 26);
    // Base36 and Base52.
    crate::integer_encodings::law_integer_round_trip(n);
    crate::digits::lemma_base_powers();
    crate::digits::lemma_min_len(n, 36, 25);
    crate::digits::lemma_min_value(n, 36);
    crate::digits::lemma_min_value(n, 52);
    crate::alphabets::lemma_spell_ascii(Alphabet::Base36, min_digits(n, 36));
    crate::alphabets::lemma_spell_ascii(Alphabet::Base52, min_digits(n, 52));
    lemma_ascii_utf8(spec_to_integer(Alphabet::Base36, n));
    lemma_ascii_utf8(spec_to_integer(Alphabet::Base52, n));
    let s52 = spec_to_integer(Alphabet::Base52, n);
    assert forall|i: int| 0 <= i < s52.len() implies !(0x30 <= #[trigger] s52[i] <= 0x39) by {
        assert((min_digits(n, 52)[i] as nat) < 52);
    }
    // UUID-NCName-58.
    crate::ncname::law_ncname_58_round_trip(n);
    crate::ncname::lemma_ncname_58_chars(n);
    crate::ncname::lemma_compose_split(n);
    let s58 = spec_to_ncname_58(n);
    lemma_ascii_utf8(s58);
    if nc_version(n) != 8 && nc_version(n) != 14 && nc_variant(n) != 8 && nc_variant(n) != 14 {
        assert forall|i: int| 0 <= i < 23 implies #[trigger] s58[i] != 0x30 && s58[i] != 0x4f
            && s58[i] != 0x49 && s58[i] != 0x6c by {}
        assert(!has_non_base58_mark(s58));
    }
}

/// Inputs of any length other than 20, 23, 24, 25, 26, 32 and 36 (22
/// among them: Base62id, Base64url and UUID-NCName-64 all share it) are
/// refused as ambiguous.
pub proof fn law_parse_ambiguous_lengths(s: Seq<u8>)
    requires
        s.len() != 20 && s.len() != 23 && s.len() != 24 && s.len() != 25 && s.len() != 26
            && s.len() != 32 && s.len() != 36,
        s.len() <= usize::MAX,
    ensures
        spec_parse(s) == Err::<nat, DecodeError>(DecodeError::AmbiguousLength { got: s.len() as usize }),
{
}

} // verus!
