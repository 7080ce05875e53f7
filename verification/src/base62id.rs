//! Base62id: prepend the bits `0b10` to the 128-bit UUID, giving the
//! 130-bit integer `V = 2^129 + uuid`, and write `V` with the Base62sort
//! alphabet (`0-9A-Za-z`).
//!
//! `62^21 < 2^129 <= V < 2^130 < 62^22`, so every UUID encodes to exactly
//! 22 characters whose first digit lies in 15..=31 (`F` to `V`): the
//! result always starts with an uppercase letter, which makes it usable
//! as an HTML/CSS/XML id.

use vstd::prelude::*;

use crate::alphabets::{spell, spell_digits, Alphabet};
use crate::digits::{
    digits_below, digits_value, fixed_digits, lemma_base_powers, lemma_fixed_is_padded_min,
    lemma_min_len, lemma_min_value, lemma_pow256_values, lemma_value_bound, lemma_value_concat,
    min_digits, zeros,
};
use crate::error::DecodeError;
use crate::integer_base::{decode_integer, encode_integer_padded, read_integer};
use crate::integer_encodings::lemma_read_integer_spell;
use crate::text::{ascii_text, lemma_ascii_utf8, string_from_ascii};
use crate::{decoded_as, lemma_uuid_wf, uuid_limit, Uuid};
use vstd::arithmetic::power::pow;
use vstd::string::StringSliceAdditionalSpecFns;
use vstd::utf8::encode_utf8;

verus! {

/// The 130-bit integer `0b10 ++ uuid`.
pub open spec fn base62id_value(n: nat) -> nat {
    2 * uuid_limit() + n
}

/// The 22-character Base62id spelling of a UUID value.
pub open spec fn spec_to_base62id(n: nat) -> Seq<u8> {
    spell(Alphabet::Base62Sort, min_digits(base62id_value(n), 62))
}

/// Base62id decoding: exactly 22 bytes, read as a Base62sort integer into
/// 17 bytes; the top byte must be the `0b10` sentinel.
pub open spec fn spec_from_base62id(s: Seq<u8>) -> Result<nat, DecodeError> {
    if s.len() != 22 {
        Err(DecodeError::InvalidLength { encoding: "base62id", expected: 22, got: s.len() as usize })
    } else {
        match read_integer(Alphabet::Base62Sort, s, "base62id", pow(256, 17) as nat, 0) {
            Err(e) => Err(e),
            Ok(v) => if v / uuid_limit() != 2 {
                Err(
                    DecodeError::SchemeViolation {
                        encoding: "base62id",
                        reason: "sentinel byte mismatch (input is corrupt or not Base62id)",
                    },
                )
            } else {
                Ok(v % uuid_limit())
            },
        }
    }
}

/// The leading digit of a fixed-width spelling.
proof fn lemma_fixed_first(n: nat, b: nat, w: nat)
    requires
        2 <= b <= 256,
        w >= 1,
    ensures
        fixed_digits(n, b, w)[0] as nat == (n / (pow(b as int, (w - 1) as nat) as nat)) % b,
    decreases w,
{
    vstd::arithmetic::power::lemma_pow_positive(b as int, (w - 1) as nat);
    crate::digits::lemma_fixed_len(n / b, b, (w - 1) as nat);
    if w == 1 {
        vstd::arithmetic::power::lemma_pow0(b as int);
        assert(n / 1 == n);
        vstd::arithmetic::div_mod::lemma_mod_bound(n as int, b as int);
        assert(fixed_digits(n, b, 1)[0] == (n % b) as u8);
    } else {
        let k = (w - 2) as nat;
        vstd::arithmetic::div_mod::lemma_div_pos_is_pos(n as int, b as int);
        lemma_fixed_first(n / b, b, (w - 1) as nat);
        assert(fixed_digits(n, b, w)[0] == fixed_digits(n / b, b, (w - 1) as nat)[0]);
        crate::digits::lemma_pow_step(b, k);
        assert(k + 1 == w - 1);
        vstd::arithmetic::power::lemma_pow_positive(b as int, k);
        vstd::arithmetic::div_mod::lemma_div_denominator(n as int, b as int, pow(b as int, k));
        assert((n / b) / (pow(b as int, k) as nat) == n / (pow(b as int, (w - 1) as nat) as nat));
    }
}

/// Base62id spellings have 22 characters and start with `F` to `V`.
pub proof fn lemma_base62id_shape(n: nat)
    requires
        n < uuid_limit(),
    ensures
        spec_to_base62id(n).len() == 22,
        0x46 <= spec_to_base62id(n)[0] <= 0x56,
        crate::text::all_ascii(spec_to_base62id(n)),
{
    let v = base62id_value(n);
    lemma_base_powers();
    lemma_min_len(v, 62, 22);
    lemma_min_len(v, 62, 21);
    lemma_min_value(v, 62);
    let m = min_digits(v, 62);
    assert(m.len() == 22);
    lemma_fixed_is_padded_min(v, 62, 22);
    assert(zeros(0) + m =~= m);
    lemma_fixed_first(v, 62, 22);
    assert(m[0] as nat == (v / 43674252383913877424036476406214950912) % 62);
    assert(15 <= m[0] <= 31);
    crate::alphabets::lemma_spell_ascii(Alphabet::Base62Sort, m);
}

impl Uuid {
    /// 22-character Base62id encoding; always starts with an uppercase
    /// letter (`F` to `V`), so it is usable as an XML/HTML/CSS id.
    pub fn to_base62id(&self) -> (s: String)
        ensures
            s@ == ascii_text(spec_to_base62id(self.value())),
            s@.len() == 22,
            'F' <= s@[0] <= 'V',
    {
        let mut prefixed: Vec<u8> = Vec::new();
        prefixed.push(2);
        let bytes = self.as_bytes();
        crate::digits::append_range(&mut prefixed, bytes.as_slice(), 0, 16);
        proof {
            lemma_uuid_wf(*self);
            assert(self@.subrange(0, 16) =~= self@);
            assert(prefixed@ =~= seq![2u8] + self@);
            lemma_value_concat(seq![2u8], self@, 256);
            assert(seq![2u8].drop_last() =~= Seq::<u8>::empty());
            assert(digits_value(Seq::<u8>::empty(), 256) == 0);
            assert(digits_value(seq![2u8], 256) == 2);
            lemma_pow256_values();
            lemma_base62id_shape(self.value());
        }
        let d = encode_integer_padded(prefixed.as_slice(), 62, false);
        let v = spell_digits(Alphabet::Base62Sort, &d);
        string_from_ascii(v)
    }
}

/// Parse a 22-character Base62id string.
pub fn from_base62id(input: &str) -> (r: Result<Uuid, DecodeError>)
    ensures
        decoded_as(r, spec_from_base62id(input.spec_bytes())),
{
    let bytes = input.as_bytes();
    if bytes.len() != 22 {
        return Err(DecodeError::InvalidLength { encoding: "base62id", expected: 22, got: bytes.len() });
    }
    let buf = decode_integer("base62id", bytes, Alphabet::Base62Sort, 17, 0)?;
    let mut rest: Vec<u8> = Vec::new();
    crate::digits::append_range(&mut rest, buf.as_slice(), 1, 17);
    proof {
        let v = digits_value(buf@, 256);
        assert(buf@ =~= seq![buf@[0]] + rest@);
        lemma_value_concat(seq![buf@[0]], rest@, 256);
        assert(seq![buf@[0]].drop_last() =~= Seq::<u8>::empty());
        assert(digits_value(Seq::<u8>::empty(), 256) == 0);
        assert(digits_value(seq![buf@[0]], 256) == buf@[0] as nat);
        assert(digits_below(rest@, 256));
        lemma_value_bound(rest@, 256);
        lemma_pow256_values();
        vstd::arithmetic::div_mod::lemma_fundamental_div_mod_converse(
            v as int,
            uuid_limit() as int,
            buf@[0] as int,
            digits_value(rest@, 256) as int,
        );
    }
    if buf[0] != 2 {
        return Err(
            DecodeError::SchemeViolation {
                encoding: "base62id",
                reason: "sentinel byte mismatch (input is corrupt or not Base62id)",
            },
        );
    }
    Ok(Uuid::from_byte_vec(&rest))
}

/// Base62id decoding inverts Base62id encoding:
/// `from_base62id(&u.to_base62id()) == Ok(u)`.
pub proof fn law_base62id_round_trip(n: nat)
    requires
        n < uuid_limit(),
    ensures
        spec_from_base62id(encode_utf8(ascii_text(spec_to_base62id(n)))) == Ok::<nat, DecodeError>(
            n,
        ),
{
    lemma_base62id_shape(n);
    lemma_ascii_utf8(spec_to_base62id(n));
    let v = base62id_value(n);
    lemma_min_value(v, 62);
    lemma_pow256_values();
    lemma_read_integer_spell(Alphabet::Base62Sort, min_digits(v, 62), "base62id", pow(256, 17) as nat, 0);
    vstd::arithmetic::div_mod::lemma_fundamental_div_mod_converse(
        v as int,
        uuid_limit() as int,
        2,
        n as int,
    );
}

} // verus!
