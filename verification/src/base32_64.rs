//! Public API for the bit-stream encodings: Base32 (standard, hex,
//! "humans") in 26 characters and Base64 (standard, URL-safe, sortable) in
//! 22 characters.

use vstd::prelude::*;

use crate::alphabets::Alphabet;
use crate::bitstream::{
    bit_layout, decode_bits, encode_bits, lemma_bits_round_trip, spec_read_bits, spec_write_bits,
};
use crate::digits::lemma_bit_powers;
use crate::error::DecodeError;
use crate::text::{ascii_text, lemma_ascii_utf8, string_from_ascii};
use crate::{decoded_as, uuid_limit, Uuid};
use vstd::string::StringSliceAdditionalSpecFns;
use vstd::utf8::encode_utf8;

verus! {

/// 26-character Base32 spelling (2 zero pad bits) in alphabet `a`.
pub open spec fn spec_to_base32(a: Alphabet, n: nat) -> Seq<u8> {
    spec_write_bits(a, 4, 26, n)
}

/// 22-character Base64 spelling (4 zero pad bits) in alphabet `a`.
pub open spec fn spec_to_base64(a: Alphabet, n: nat) -> Seq<u8> {
    spec_write_bits(a, 16, 22, n)
}

/// Base32 decoding: exactly 26 bytes, then the bit-stream reading.
pub open spec fn spec_from_base32(a: Alphabet, enc: &'static str, s: Seq<u8>) -> Result<
    nat,
    DecodeError,
> {
    if s.len() != 26 {
        Err(DecodeError::InvalidLength { encoding: enc, expected: 26, got: s.len() as usize })
    } else {
        spec_read_bits(a, 4, enc, s, 0)
    }
}

/// Base64 decoding: exactly 22 bytes, then the bit-stream reading.
pub open spec fn spec_from_base64(a: Alphabet, enc: &'static str, s: Seq<u8>) -> Result<
    nat,
    DecodeError,
> {
    if s.len() != 22 {
        Err(DecodeError::InvalidLength { encoding: enc, expected: 22, got: s.len() as usize })
    } else {
        spec_read_bits(a, 16, enc, s, 0)
    }
}

/// The Base32 alphabets lay out a UUID in 26 characters, the Base64 ones
/// in 22.
pub proof fn lemma_layouts(a: Alphabet)
    ensures
        a.size() == 32 ==> bit_layout(a, 8, 4, 26),
        a.size() == 64 ==> bit_layout(a, 4, 16, 22),
{
    lemma_bit_powers();
}

fn encode_b32(uuid: &Uuid, a: Alphabet) -> (s: String)
    requires
        a.size() == 32,
    ensures
        s@ == ascii_text(spec_to_base32(a, uuid.value())),
        s@.len() == 26,
{
    proof {
        lemma_layouts(a);
    }
    let v = encode_bits(uuid.to_u128(), a, 8, 4, 26);
    string_from_ascii(v)
}

fn encode_b64(uuid: &Uuid, a: Alphabet) -> (s: String)
    requires
        a.size() == 64,
    ensures
        s@ == ascii_text(spec_to_base64(a, uuid.value())),
        s@.len() == 22,
{
    proof {
        lemma_layouts(a);
    }
    let v = encode_bits(uuid.to_u128(), a, 4, 16, 22);
    string_from_ascii(v)
}

impl Uuid {
    /// 26-character RFC 4648 §6 standard Base32.
    pub fn to_base32(&self) -> (s: String)
        ensures
            s@ == ascii_text(spec_to_base32(Alphabet::Base32Std, self.value())),
            s@.len() == 26,
    {
        encode_b32(self, Alphabet::Base32Std)
    }

    /// 26-character RFC 4648 §7 base32hex; its alphabet keeps binary sort
    /// order.
    pub fn to_base32_hex(&self) -> (s: String)
        ensures
            s@ == ascii_text(spec_to_base32(Alphabet::Base32Hex, self.value())),
            s@.len() == 26,
    {
        encode_b32(self, Alphabet::Base32Hex)
    }

    /// 26-character "Base32 for Humans" (Crockford-style, no I/L/O/U).
    pub fn to_base32_humans(&self) -> (s: String)
        ensures
            s@ == ascii_text(spec_to_base32(Alphabet::Base32Humans, self.value())),
            s@.len() == 26,
    {
        encode_b32(self, Alphabet::Base32Humans)
    }

    /// 22-character RFC 4648 §4 standard Base64, without padding.
    pub fn to_base64(&self) -> (s: String)
        ensures
            s@ == ascii_text(spec_to_base64(Alphabet::Base64Std, self.value())),
            s@.len() == 22,
    {
        encode_b64(self, Alphabet::Base64Std)
    }

    /// 22-character RFC 4648 §5 URL-safe Base64, without padding.
    pub fn to_base64_url(&self) -> (s: String)
        ensures
            s@ == ascii_text(spec_to_base64(Alphabet::Base64Url, self.value())),
            s@.len() == 22,
    {
        encode_b64(self, Alphabet::Base64Url)
    }

    /// 22-character lex-sortable Base64 (`-` < digits < uppercase < `_` <
    /// lowercase).
    pub fn to_base64_sort(&self) -> (s: String)
        ensures
            s@ == ascii_text(spec_to_base64(Alphabet::Base64Sort, self.value())),
            s@.len() == 22,
    {
        encode_b64(self, Alphabet::Base64Sort)
    }
}

fn decode_fixed(
    encoding: &'static str,
    input: &str,
    expected: usize,
    a: Alphabet,
) -> (r: Result<Uuid, DecodeError>)
    requires
        (expected == 26 && a.size() == 32) || (expected == 22 && a.size() == 64),
    ensures
        expected == 26 ==> decoded_as(r, spec_from_base32(a, encoding, input.spec_bytes())),
        expected == 22 ==> decoded_as(r, spec_from_base64(a, encoding, input.spec_bytes())),
{
    let bytes = input.as_bytes();
    if bytes.len() != expected {
        return Err(DecodeError::InvalidLength { encoding, expected, got: bytes.len() });
    }
    proof {
        lemma_layouts(a);
    }
    let v = if expected == 26 {
        decode_bits(encoding, bytes, a, 8, 4, 0)?
    } else {
        decode_bits(encoding, bytes, a, 4, 16, 0)?
    };
    Ok(Uuid::from_u128(v))
}

/// Parse a 26-character RFC 4648 §6 Base32 string (either case).
pub fn from_base32(input: &str) -> (r: Result<Uuid, DecodeError>)
    ensures
        decoded_as(r, spec_from_base32(Alphabet::Base32Std, "base32", input.spec_bytes())),
{
    decode_fixed("base32", input, 26, Alphabet::Base32Std)
}

/// Parse a 26-character base32hex string (either case).
pub fn from_base32_hex(input: &str) -> (r: Result<Uuid, DecodeError>)
    ensures
        decoded_as(r, spec_from_base32(Alphabet::Base32Hex, "base32hex", input.spec_bytes())),
{
    decode_fixed("base32hex", input, 26, Alphabet::Base32Hex)
}

/// Parse a 26-character Base32-for-Humans string (either case).
pub fn from_base32_humans(input: &str) -> (r: Result<Uuid, DecodeError>)
    ensures
        decoded_as(r, spec_from_base32(Alphabet::Base32Humans, "base32humans", input.spec_bytes())),
{
    decode_fixed("base32humans", input, 26, Alphabet::Base32Humans)
}

/// Parse a 22-character standard Base64 string.
pub fn from_base64(input: &str) -> (r: Result<Uuid, DecodeError>)
    ensures
        decoded_as(r, spec_from_base64(Alphabet::Base64Std, "base64", input.spec_bytes())),
{
    decode_fixed("base64", input, 22, Alphabet::Base64Std)
}

/// Parse a 22-character URL-safe Base64 string.
pub fn from_base64_url(input: &str) -> (r: Result<Uuid, DecodeError>)
    ensures
        decoded_as(r, spec_from_base64(Alphabet::Base64Url, "base64url", input.spec_bytes())),
{
    decode_fixed("base64url", input, 22, Alphabet::Base64Url)
}

/// Parse a 22-character sortable Base64 string.
pub fn from_base64_sort(input: &str) -> (r: Result<Uuid, DecodeError>)
    ensures
        decoded_as(r, spec_from_base64(Alphabet::Base64Sort, "base64sort", input.spec_bytes())),
{
    decode_fixed("base64sort", input, 22, Alphabet::Base64Sort)
}

/// Every Base32 and Base64 decoder inverts its encoder:
/// `from_base32(&u.to_base32()) == Ok(u)` and likewise for the other five.
pub proof fn law_bitstream_round_trip(n: nat, a: Alphabet, enc: &'static str)
    requires
        n < uuid_limit(),
        a.size() == 32 || a.size() == 64,
    ensures
        a.size() == 32 ==> spec_from_base32(a, enc, encode_utf8(ascii_text(spec_to_base32(a, n))))
            == Ok::<nat, DecodeError>(n),
        a.size() == 64 ==> spec_from_base64(a, enc, encode_utf8(ascii_text(spec_to_base64(a, n))))
            == Ok::<nat, DecodeError>(n),
{
    lemma_layouts(a);
    if a.size() == 32 {
        lemma_bits_round_trip(a, 8, 4, 26, n, enc, 0);
        lemma_ascii_utf8(spec_to_base32(a, n));
    } else {
        lemma_bits_round_trip(a, 4, 16, 22, n, enc, 0);
        lemma_ascii_utf8(spec_to_base64(a, n));
    }
}

} // verus!
