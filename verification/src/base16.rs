//! Base16 (hex): the canonical `8-4-4-4-12` form (RFC 9562 §4) and the
//! plain 32-character form (RFC 4648 §8). Lowercase on output, either
//! case on input.

use vstd::prelude::*;

use crate::alphabets::{
    lemma_read_digits_ok, lemma_read_spell, lemma_spell_ascii, read_digits, read_digits_of, spell,
    spell_digits, Alphabet,
};
use crate::digits::{
    append_range, digits_below, digits_to_u128, digits_value, fixed_digits, fixed_digits_of,
    lemma_fixed_below, lemma_fixed_value, lemma_value_bound,
};
use crate::error::DecodeError;
use crate::text::{all_ascii, ascii_text, lemma_ascii_utf8};
use vstd::utf8::encode_utf8;
use crate::{decoded_as, uuid_limit, Uuid};
use vstd::arithmetic::power::{lemma_pow_multiplies, pow};
use vstd::string::StringSliceAdditionalSpecFns;

verus! {

/// Name reported in errors.
pub open spec fn hex_name() -> &'static str {
    "base16"
}

/// The dash positions of the canonical form: 8, 13, 18, 23.
pub open spec fn is_dash_position(i: int) -> bool {
    i == 8 || i == 13 || i == 18 || i == 23
}

/// 32 lowercase hex digits of `n`.
pub open spec fn spec_hex(n: nat) -> Seq<u8> {
    spell(Alphabet::Base16, fixed_digits(n, 16, 32))
}

/// 32 hex digits with dashes inserted after the 8th, 12th, 16th and 20th.
pub open spec fn dashed(h: Seq<u8>) -> Seq<u8> {
    h.subrange(0, 8) + seq![0x2du8] + h.subrange(8, 12) + seq![0x2du8] + h.subrange(12, 16)
        + seq![0x2du8] + h.subrange(16, 20) + seq![0x2du8] + h.subrange(20, 32)
}

/// The canonical 36-character `xxxxxxxx-xxxx-xxxx-xxxx-xxxxxxxxxxxx` form.
pub open spec fn spec_hex_dash(n: nat) -> Seq<u8> {
    dashed(spec_hex(n))
}

/// The first index of a 36-byte input where a dash is missing or a dash
/// stands outside the four dash positions.
pub open spec fn first_misplaced_dash(s: Seq<u8>) -> Option<nat>
    decreases s.len(),
{
    if s.len() == 0 {
        None
    } else {
        match first_misplaced_dash(s.drop_last()) {
            Some(i) => Some(i),
            None => if is_dash_position(s.len() - 1) != (s.last() == 0x2du8) {
                Some((s.len() - 1) as nat)
            } else {
                None
            },
        }
    }
}

/// Reads 32 hex digits (either case) as a number.
pub open spec fn spec_read_hex_plain(s: Seq<u8>) -> Result<nat, DecodeError> {
    match read_digits(Alphabet::Base16, s, hex_name(), 0) {
        Err(e) => Err(e),
        Ok(d) => Ok(digits_value(d, 16)),
    }
}

/// Reads the five digit groups of a 36-byte input whose dashes are in
/// place; errors name the index in the whole input.
pub open spec fn read_hex_groups(s: Seq<u8>) -> Result<Seq<u8>, DecodeError> {
    let a = Alphabet::Base16;
    match read_digits(a, s.subrange(0, 8), hex_name(), 0) {
        Err(e) => Err(e),
        Ok(d0) => match read_digits(a, s.subrange(9, 13), hex_name(), 9) {
            Err(e) => Err(e),
            Ok(d1) => match read_digits(a, s.subrange(14, 18), hex_name(), 14) {
                Err(e) => Err(e),
                Ok(d2) => match read_digits(a, s.subrange(19, 23), hex_name(), 19) {
                    Err(e) => Err(e),
                    Ok(d3) => match read_digits(a, s.subrange(24, 36), hex_name(), 24) {
                        Err(e) => Err(e),
                        Ok(d4) => Ok(d0 + d1 + d2 + d3 + d4),
                    },
                },
            },
        },
    }
}

/// Reads a 36-byte input: dashes first, then the hex digits.
pub open spec fn spec_read_hex_dash(s: Seq<u8>) -> Result<nat, DecodeError> {
    match first_misplaced_dash(s) {
        Some(i) => Err(
            DecodeError::InvalidCharacter { encoding: hex_name(), position: i as usize, byte: s[i as int] },
        ),
        None => match read_hex_groups(s) {
            Err(e) => Err(e),
            Ok(d) => Ok(digits_value(d, 16)),
        },
    }
}

/// Strict hex-dash decoding: exactly 36 bytes.
pub open spec fn spec_from_hex_dash(s: Seq<u8>) -> Result<nat, DecodeError> {
    if s.len() != 36 {
        Err(DecodeError::InvalidLength { encoding: hex_name(), expected: 36, got: s.len() as usize })
    } else {
        spec_read_hex_dash(s)
    }
}

/// Strict plain-hex decoding: exactly 32 bytes.
pub open spec fn spec_from_hex_plain(s: Seq<u8>) -> Result<nat, DecodeError> {
    if s.len() != 32 {
        Err(DecodeError::InvalidLength { encoding: hex_name(), expected: 32, got: s.len() as usize })
    } else {
        spec_read_hex_plain(s)
    }
}

/// Lenient hex decoding: 32 or 36 bytes; any other length reports the
/// nearer of the two.
pub open spec fn spec_from_hex(s: Seq<u8>) -> Result<nat, DecodeError> {
    if s.len() == 32 {
        spec_read_hex_plain(s)
    } else if s.len() == 36 {
        spec_read_hex_dash(s)
    } else {
        Err(
            DecodeError::InvalidLength {
                encoding: hex_name(),
                expected: if s.len() >= 34 {
                    36
                } else {
                    32
                },
                got: s.len() as usize,
            },
        )
    }
}

pub proof fn lemma_pow16_32()
    ensures
        pow(16, 32) == uuid_limit(),
{
    crate::digits::lemma_pow256_values();
    lemma_pow_multiplies(16, 2, 16);
    assert(pow(16, 2) == 256) by {
        vstd::arithmetic::power::lemma_pow1(16);
        vstd::arithmetic::power::lemma_pow_adds(16, 1, 1);
    }
}

/// Lowercase hex digits of a UUID value.
pub(crate) fn encode_plain(n: u128) -> (r: Vec<u8>)
    ensures
        r@ == spec_hex(n as nat),
        all_ascii(r@),
        r@.len() == 32,
{
    let d = fixed_digits_of(n, 16, 32);
    proof {
        lemma_fixed_below(n as nat, 16, 32);
    }
    spell_digits(Alphabet::Base16, &d)
}

/// The canonical dashed form of a UUID value.
pub(crate) fn encode_dash(n: u128) -> (r: Vec<u8>)
    ensures
        r@ == spec_hex_dash(n as nat),
        all_ascii(r@),
        r@.len() == 36,
{
    let h = encode_plain(n);
    let mut out: Vec<u8> = Vec::new();
    append_range(&mut out, h.as_slice(), 0, 8);
    out.push(0x2d);
    append_range(&mut out, h.as_slice(), 8, 12);
    out.push(0x2d);
    append_range(&mut out, h.as_slice(), 12, 16);
    out.push(0x2d);
    append_range(&mut out, h.as_slice(), 16, 20);
    out.push(0x2d);
    append_range(&mut out, h.as_slice(), 20, 32);
    assert(out@ =~= dashed(h@));
    assert(all_ascii(out@)) by {
        assert forall|i: int| 0 <= i < out@.len() implies (#[trigger] out@[i]) < 0x80 by {
            if i < 8 {
                assert(out@[i] == h@[i]);
            } else if 9 <= i < 13 {
                assert(out@[i] == h@[i - 1]);
            } else if 14 <= i < 18 {
                assert(out@[i] == h@[i - 2]);
            } else if 19 <= i < 23 {
                assert(out@[i] == h@[i - 3]);
            } else if 24 <= i {
                assert(out@[i] == h@[i - 4]);
            }
        }
    }
    out
}

/// A digit string read from hex fits in a UUID.
proof fn lemma_hex_digits_fit(d: Seq<u8>)
    requires
        d.len() == 32,
        digits_below(d, 16),
    ensures
        digits_value(d, 16) < uuid_limit(),
{
    lemma_value_bound(d, 16);
    lemma_pow16_32();
}

/// The UUID of 32 hex digits.
fn uuid_of_hex_digits(d: &Vec<u8>) -> (u: Uuid)
    requires
        d@.len() == 32,
        digits_below(d@, 16),
    ensures
        u.value() == digits_value(d@, 16),
{
    proof {
        lemma_hex_digits_fit(d@);
    }
    let v = digits_to_u128(d, 16);
    Uuid::from_u128(v)
}

fn decode_hex_slice(hex: &[u8]) -> (r: Result<Uuid, DecodeError>)
    requires
        hex@.len() == 32,
    ensures
        decoded_as(r, spec_read_hex_plain(hex@)),
{
    let d = read_digits_of(Alphabet::Base16, hex, "base16", 0)?;
    proof {
        lemma_read_digits_ok(Alphabet::Base16, hex@, hex_name(), 0);
    }
    Ok(uuid_of_hex_digits(&d))
}

fn decode_36(bytes: &[u8]) -> (r: Result<Uuid, DecodeError>)
    requires
        bytes@.len() == 36,
    ensures
        decoded_as(r, spec_read_hex_dash(bytes@)),
{
    let mut i: usize = 0;
    while i < 36
        invariant
            i <= 36,
            bytes@.len() == 36,
            first_misplaced_dash(bytes@.take(i as int)) is None,
        decreases 36 - i,
    {
        let c = bytes[i];
        let is_dash_pos = i == 8 || i == 13 || i == 18 || i == 23;
        let is_dash = c == 0x2d;
        assert(bytes@.take((i + 1) as int).drop_last() =~= bytes@.take(i as int));
        if is_dash_pos != is_dash {
            proof {
                lemma_misplaced_prefix(bytes@, (i + 1) as int);
            }
            return Err(DecodeError::InvalidCharacter { encoding: "base16", position: i, byte: c });
        }
        i += 1;
    }
    assert(bytes@.take(36) =~= bytes@);
    let a = Alphabet::Base16;
    let d0 = read_digits_of(a, &bytes[0..8], "base16", 0)?;
    let d1 = read_digits_of(a, &bytes[9..13], "base16", 9)?;
    let d2 = read_digits_of(a, &bytes[14..18], "base16", 14)?;
    let d3 = read_digits_of(a, &bytes[19..23], "base16", 19)?;
    let d4 = read_digits_of(a, &bytes[24..36], "base16", 24)?;
    let mut d: Vec<u8> = Vec::new();
    append_range(&mut d, d0.as_slice(), 0, d0.len());
    append_range(&mut d, d1.as_slice(), 0, d1.len());
    append_range(&mut d, d2.as_slice(), 0, d2.len());
    append_range(&mut d, d3.as_slice(), 0, d3.len());
    append_range(&mut d, d4.as_slice(), 0, d4.len());
    proof {
        lemma_read_digits_ok(a, bytes@.subrange(0, 8), hex_name(), 0);
        lemma_read_digits_ok(a, bytes@.subrange(9, 13), hex_name(), 9);
        lemma_read_digits_ok(a, bytes@.subrange(14, 18), hex_name(), 14);
        lemma_read_digits_ok(a, bytes@.subrange(19, 23), hex_name(), 19);
        lemma_read_digits_ok(a, bytes@.subrange(24, 36), hex_name(), 24);
        assert(d0@.subrange(0, d0@.len() as int) =~= d0@);
        assert(d1@.subrange(0, d1@.len() as int) =~= d1@);
        assert(d2@.subrange(0, d2@.len() as int) =~= d2@);
        assert(d3@.subrange(0, d3@.len() as int) =~= d3@);
        assert(d4@.subrange(0, d4@.len() as int) =~= d4@);
        assert(d@ =~= d0@ + d1@ + d2@ + d3@ + d4@);
        assert(digits_below(d@, 16)) by {
            assert forall|j: int| 0 <= j < d@.len() implies (#[trigger] d@[j] as nat) < 16 by {
                if j < 8 {
                    assert(d@[j] == d0@[j]);
                } else if j < 12 {
                    assert(d@[j] == d1@[j - 8]);
                } else if j < 16 {
                    assert(d@[j] == d2@[j - 12]);
                } else if j < 20 {
                    assert(d@[j] == d3@[j - 16]);
                } else {
                    assert(d@[j] == d4@[j - 20]);
                }
            }
        }
    }
    Ok(uuid_of_hex_digits(&d))
}

/// A misplaced dash in a prefix is the first misplaced dash of the whole.
proof fn lemma_misplaced_prefix(s: Seq<u8>, k: int)
    requires
        0 <= k <= s.len(),
        first_misplaced_dash(s.take(k)) is Some,
    ensures
        first_misplaced_dash(s) == first_misplaced_dash(s.take(k)),
        (first_misplaced_dash(s).unwrap() as int) < k,
    decreases s.len() - k,
{
    lemma_misplaced_bound(s.take(k));
    if k < s.len() {
        assert(s.take(k + 1).drop_last() =~= s.take(k));
        lemma_misplaced_prefix(s, k + 1);
    } else {
        assert(s.take(k) =~= s);
    }
}

proof fn lemma_misplaced_bound(s: Seq<u8>)
    ensures
        first_misplaced_dash(s) matches Some(i) ==> (i as int) < s.len(),
    decreases s.len(),
{
    if s.len() > 0 {
        lemma_misplaced_bound(s.drop_last());
    }
}

/// Strict canonical hex-dash decoding (see [`spec_from_hex_dash`]).
pub(crate) fn decode_dash(input: &str) -> (r: Result<Uuid, DecodeError>)
    ensures
        decoded_as(r, spec_from_hex_dash(input.spec_bytes())),
{
    let bytes = input.as_bytes();
    if bytes.len() != 36 {
        return Err(DecodeError::InvalidLength { encoding: "base16", expected: 36, got: bytes.len() });
    }
    decode_36(bytes)
}

/// Strict plain-hex decoding (see [`spec_from_hex_plain`]).
pub(crate) fn decode_plain(input: &str) -> (r: Result<Uuid, DecodeError>)
    ensures
        decoded_as(r, spec_from_hex_plain(input.spec_bytes())),
{
    let bytes = input.as_bytes();
    if bytes.len() != 32 {
        return Err(DecodeError::InvalidLength { encoding: "base16", expected: 32, got: bytes.len() });
    }
    decode_hex_slice(bytes)
}

/// Lenient hex decoding (see [`spec_from_hex`]).
pub(crate) fn decode(input: &str) -> (r: Result<Uuid, DecodeError>)
    ensures
        decoded_as(r, spec_from_hex(input.spec_bytes())),
{
    let bytes = input.as_bytes();
    let n = bytes.len();
    if n == 32 {
        decode_hex_slice(bytes)
    } else if n == 36 {
        decode_36(bytes)
    } else {
        let expected = if n >= 34 {
            36
        } else {
            32
        };
        Err(DecodeError::InvalidLength { encoding: "base16", expected, got: n })
    }
}

/// No dash is misplaced when every byte is a dash exactly at a dash
/// position.
proof fn lemma_no_misplaced(s: Seq<u8>)
    requires
        forall|i: int| 0 <= i < s.len() ==> is_dash_position(i) == (#[trigger] s[i] == 0x2du8),
    ensures
        first_misplaced_dash(s) is None,
    decreases s.len(),
{
    if s.len() > 0 {
        let p = s.drop_last();
        assert forall|i: int| 0 <= i < p.len() implies is_dash_position(i) == (#[trigger] p[i]
            == 0x2du8) by {
            assert(p[i] == s[i]);
        }
        lemma_no_misplaced(p);
        assert(s.last() == s[s.len() - 1]);
    }
}

/// Hex decoding inverts hex encoding, in both forms and with both the
/// strict and the lenient decoder: `from_hex(&u.to_hex()) == Ok(u)`,
/// `from_hex(&u.to_hex_dash()) == Ok(u)`, `from_hex_plain(&u.to_hex())`
/// and `from_hex_dash(&u.to_hex_dash())` likewise.
pub proof fn law_hex_round_trip(n: nat)
    requires
        n < uuid_limit(),
    ensures
        spec_from_hex(encode_utf8(ascii_text(spec_hex(n)))) == Ok::<nat, DecodeError>(n),
        spec_from_hex_plain(encode_utf8(ascii_text(spec_hex(n)))) == Ok::<nat, DecodeError>(n),
        spec_from_hex(encode_utf8(ascii_text(spec_hex_dash(n)))) == Ok::<nat, DecodeError>(n),
        spec_from_hex_dash(encode_utf8(ascii_text(spec_hex_dash(n)))) == Ok::<nat, DecodeError>(n),
        all_ascii(spec_hex(n)),
        all_ascii(spec_hex_dash(n)),
{
    let a = Alphabet::Base16;
    let d = fixed_digits(n, 16, 32);
    lemma_fixed_below(n, 16, 32);
    lemma_spell_ascii(a, d);
    let h = spec_hex(n);
    lemma_ascii_utf8(h);
    lemma_read_spell(a, d, hex_name(), 0);
    lemma_fixed_value(n, 16, 32);
    lemma_pow16_32();
    vstd::arithmetic::div_mod::lemma_small_mod(n, uuid_limit());
    // dashed form
    let s = dashed(h);
    assert(all_ascii(s)) by {
        assert forall|i: int| 0 <= i < s.len() implies (#[trigger] s[i]) < 0x80 by {
            if i < 8 {
                assert(s[i] == h[i]);
            } else if 9 <= i < 13 {
                assert(s[i] == h[i - 1]);
            } else if 14 <= i < 18 {
                assert(s[i] == h[i - 2]);
            } else if 19 <= i < 23 {
                assert(s[i] == h[i - 3]);
            } else if 24 <= i {
                assert(s[i] == h[i - 4]);
            }
        }
    }
    lemma_ascii_utf8(s);
    assert forall|i: int| 0 <= i < s.len() implies is_dash_position(i) == (#[trigger] s[i]
        == 0x2du8) by {
        if i < 8 {
            assert(s[i] == h[i]);
            crate::alphabets::lemma_sym_val(a, d[i]);
        } else if 9 <= i < 13 {
            assert(s[i] == h[i - 1]);
            crate::alphabets::lemma_sym_val(a, d[i - 1]);
        } else if 14 <= i < 18 {
            assert(s[i] == h[i - 2]);
            crate::alphabets::lemma_sym_val(a, d[i - 2]);
        } else if 19 <= i < 23 {
            assert(s[i] == h[i - 3]);
            crate::alphabets::lemma_sym_val(a, d[i - 3]);
        } else if 24 <= i {
            assert(s[i] == h[i - 4]);
            crate::alphabets::lemma_sym_val(a, d[i - 4]);
        }
    }
    lemma_no_misplaced(s);
    let g0 = d.subrange(0, 8);
    let g1 = d.subrange(8, 12);
    let g2 = d.subrange(12, 16);
    let g3 = d.subrange(16, 20);
    let g4 = d.subrange(20, 32);
    assert(s.subrange(0, 8) =~= spell(a, g0));
    assert(s.subrange(9, 13) =~= spell(a, g1));
    assert(s.subrange(14, 18) =~= spell(a, g2));
    assert(s.subrange(19, 23) =~= spell(a, g3));
    assert(s.subrange(24, 36) =~= spell(a, g4));
    lemma_read_spell(a, g0, hex_name(), 0);
    lemma_read_spell(a, g1, hex_name(), 9);
    lemma_read_spell(a, g2, hex_name(), 14);
    lemma_read_spell(a, g3, hex_name(), 19);
    lemma_read_spell(a, g4, hex_name(), 24);
    assert(g0 + g1 + g2 + g3 + g4 =~= d);
}

/// The 32 digits of a 36-byte dashed form: the form with its four dash
/// positions left out.
pub open spec fn undashed(s: Seq<u8>) -> Seq<u8> {
    s.subrange(0, 8) + s.subrange(9, 13) + s.subrange(14, 18) + s.subrange(19, 23) + s.subrange(
        24,
        36,
    )
}

/// The canonical form is 36 characters with a dash exactly at positions 8,
/// 13, 18 and 23; without its dashes it is the plain form, whose 32
/// characters are lowercase hex digits.
pub proof fn law_hex_dash_shape(n: nat)
    requires
        n < uuid_limit(),
    ensures
        spec_hex_dash(n).len() == 36,
        forall|i: int| 0 <= i < 36 ==> (#[trigger] spec_hex_dash(n)[i] == 0x2du8) == is_dash_position(i),
        undashed(spec_hex_dash(n)) == spec_hex(n),
        spec_hex(n).len() == 32,
        forall|i: int|
            0 <= i < 32 ==> (0x30 <= #[trigger] spec_hex(n)[i] <= 0x39 || 0x61 <= spec_hex(n)[i]
                <= 0x66),
{
    let a = Alphabet::Base16;
    let d = fixed_digits(n, 16, 32);
    lemma_fixed_below(n, 16, 32);
    let h = spec_hex(n);
    let s = spec_hex_dash(n);
    assert forall|i: int| 0 <= i < 32 implies (0x30 <= #[trigger] h[i] <= 0x39 || 0x61 <= h[i]
        <= 0x66) by {
        assert((d[i] as nat) < 16);
    }
    assert forall|i: int| 0 <= i < 36 implies (#[trigger] s[i] == 0x2du8) == is_dash_position(i) by {
        if i < 8 {
            assert(s[i] == h[i]);
        } else if 9 <= i < 13 {
            assert(s[i] == h[i - 1]);
        } else if 14 <= i < 18 {
            assert(s[i] == h[i - 2]);
        } else if 19 <= i < 23 {
            assert(s[i] == h[i - 3]);
        } else if 24 <= i {
            assert(s[i] == h[i - 4]);
        }
    }
    assert(undashed(s) =~= h);
}

} // verus!
verus! {

/// Lenient hex decoder: accepts either the 32-character plain form or
/// the 36-character `xxxxxxxx-xxxx-xxxx-xxxx-xxxxxxxxxxxx` form, in either
/// case.
pub fn from_hex(input: &str) -> (r: Result<Uuid, DecodeError>)
    ensures
        decoded_as(r, spec_from_hex(input.spec_bytes())),
{
    decode(input)
}

/// Strict canonical hex-dash decoder (RFC 9562 §4): exactly the
/// 36-character form; a 32-character plain hex is `InvalidLength`.
pub fn from_hex_dash(input: &str) -> (r: Result<Uuid, DecodeError>)
    ensures
        decoded_as(r, spec_from_hex_dash(input.spec_bytes())),
{
    decode_dash(input)
}

/// Strict plain-hex decoder: exactly 32 hex characters; the dashed form
/// is `InvalidLength`.
pub fn from_hex_plain(input: &str) -> (r: Result<Uuid, DecodeError>)
    ensures
        decoded_as(r, spec_from_hex_plain(input.spec_bytes())),
{
    decode_plain(input)
}

} // verus!
