//! Public API for the variable-width integer encodings: Base36, Base52,
//! Base58btc, Base62 IEEE and Base62 sort. The UUID's 128-bit value is
//! written in the alphabet's base with no leading-zero padding, so the
//! Nil UUID is the single zero symbol.

use vstd::prelude::*;

use crate::alphabets::{lemma_spell_ascii, spell, spell_digits, Alphabet};
use crate::digits::{
    digits_below, digits_value, lemma_base_powers, lemma_min_len, lemma_min_value,
    lemma_pow256_values, lemma_prefix_value_le, min_digits,
};
use crate::error::DecodeError;
use crate::integer_base::{
    check_integer_input_len, check_integer_len, decode_integer, encode_integer_padded, read_integer,
};
use crate::text::{all_ascii, ascii_text, lemma_ascii_utf8, string_from_ascii};
use crate::{decoded_as, lemma_uuid_wf, uuid_limit, Uuid};
use vstd::arithmetic::power::pow;
use vstd::string::StringSliceAdditionalSpecFns;
use vstd::utf8::encode_utf8;

verus! {

/// The minimal spelling of `n` in alphabet `a`.
pub open spec fn spec_to_integer(a: Alphabet, n: nat) -> Seq<u8> {
    spell(a, min_digits(n, a.size()))
}

/// Integer decoding of a UUID: the length screen, then a reading that
/// must stay below 2^128.
pub open spec fn spec_from_integer(a: Alphabet, enc: &'static str, s: Seq<u8>) -> Result<
    nat,
    DecodeError,
> {
    match check_integer_len(enc, s.len()) {
        Some(e) => Err(e),
        None => read_integer(a, s, enc, uuid_limit(), 0),
    }
}

/// The spelling of a UUID value in every integer alphabet.
fn encode(uuid: &Uuid, a: Alphabet) -> (s: String)
    requires
        2 <= a.size() <= 256,
    ensures
        s@ == ascii_text(spec_to_integer(a, uuid.value())),
{
    let bytes = uuid.as_bytes();
    let d = encode_integer_padded(bytes.as_slice(), a.base(), false);
    let v = spell_digits(a, &d);
    string_from_ascii(v)
}

fn decode(enc: &'static str, input: &str, a: Alphabet) -> (r: Result<Uuid, DecodeError>)
    requires
        2 <= a.size() <= 256,
    ensures
        decoded_as(r, spec_from_integer(a, enc, input.spec_bytes())),
{
    let bytes = input.as_bytes();
    check_integer_input_len(enc, bytes.len())?;
    proof {
        lemma_pow256_values();
    }
    let out = decode_integer(enc, bytes, a, 16, 0)?;
    Ok(Uuid::from_byte_vec(&out))
}

/// Bounds on the minimal spelling of a UUID value.
proof fn lemma_integer_len(a: Alphabet, n: nat, k: nat)
    requires
        n < uuid_limit(),
        2 <= a.size() <= 256,
        k >= 1,
        pow(a.size() as int, k) >= uuid_limit(),
    ensures
        spec_to_integer(a, n).len() <= k,
        all_ascii(spec_to_integer(a, n)),
{
    lemma_min_len(n, a.size(), k);
    lemma_min_value(n, a.size());
    lemma_spell_ascii(a, min_digits(n, a.size()));
}

/// Reading a spelled digit string gives its value, while the value stays
/// below the limit.
pub proof fn lemma_read_integer_spell(
    a: Alphabet,
    d: Seq<u8>,
    enc: &'static str,
    limit: nat,
    offset: nat,
)
    requires
        2 <= a.size() <= 256,
        digits_below(d, a.size()),
        digits_value(d, a.size()) < limit,
    ensures
        read_integer(a, spell(a, d), enc, limit, offset) == Ok::<nat, DecodeError>(
            digits_value(d, a.size()),
        ),
    decreases d.len(),
{
    if d.len() > 0 {
        let p = d.drop_last();
        assert(digits_below(p, a.size())) by {
            assert forall|i: int| 0 <= i < p.len() implies (#[trigger] p[i] as nat) < a.size() by {
                assert(p[i] == d[i]);
            }
        }
        assert(d.take((d.len() - 1) as int) =~= p);
        lemma_prefix_value_le(d, (d.len() - 1) as int, a.size());
        lemma_read_integer_spell(a, p, enc, limit, offset);
        assert(spell(a, d).drop_last() =~= spell(a, p));
        assert((d.last() as nat) < a.size()) by {
            assert((d[d.len() - 1] as nat) < a.size());
        }
        crate::alphabets::lemma_sym_val(a, d.last());
        assert(spell(a, d).last() == a.sym(d.last()));
    } else {
        assert(spell(a, d) =~= Seq::<u8>::empty());
    }
}

/// Integer decoding inverts integer encoding for every UUID value, and
/// the spelling fits the length screen.
pub proof fn lemma_integer_round_trip(a: Alphabet, enc: &'static str, n: nat, k: nat)
    requires
        n < uuid_limit(),
        2 <= a.size() <= 256,
        1 <= k <= 26,
        pow(a.size() as int, k) >= uuid_limit(),
    ensures
        spec_from_integer(a, enc, encode_utf8(ascii_text(spec_to_integer(a, n)))) == Ok::<
            nat,
            DecodeError,
        >(n),
{
    lemma_integer_len(a, n, k);
    lemma_ascii_utf8(spec_to_integer(a, n));
    lemma_min_value(n, a.size());
    lemma_read_integer_spell(a, min_digits(n, a.size()), enc, uuid_limit(), 0);
}

impl Uuid {
    /// Variable-length Base36 encoding (digits + uppercase), at most 25
    /// characters; the Nil UUID encodes as `"0"`.
    pub fn to_base36(&self) -> (s: String)
        ensures
            s@ == ascii_text(spec_to_integer(Alphabet::Base36, self.value())),
            1 <= s@.len() <= 25,
    {
        proof {
            lemma_uuid_wf(*self);
            lemma_base_powers();
            lemma_integer_len(Alphabet::Base36, self.value(), 25);
            lemma_min_value(self.value(), 36);
        }
        encode(self, Alphabet::Base36)
    }

    /// Variable-length Base52 encoding (uppercase then lowercase letters,
    /// no digits), at most 23 characters.
    pub fn to_base52(&self) -> (s: String)
        ensures
            s@ == ascii_text(spec_to_integer(Alphabet::Base52, self.value())),
            1 <= s@.len() <= 23,
    {
        proof {
            lemma_uuid_wf(*self);
            lemma_base_powers();
            lemma_integer_len(Alphabet::Base52, self.value(), 23);
            lemma_min_value(self.value(), 52);
        }
        encode(self, Alphabet::Base52)
    }

    /// Variable-length Base58 (Bitcoin) encoding, at most 22 characters.
    pub fn to_base58_btc(&self) -> (s: String)
        ensures
            s@ == ascii_text(spec_to_integer(Alphabet::Base58Btc, self.value())),
            1 <= s@.len() <= 22,
    {
        proof {
            lemma_uuid_wf(*self);
            lemma_base_powers();
            lemma_integer_len(Alphabet::Base58Btc, self.value(), 22);
            lemma_min_value(self.value(), 58);
        }
        encode(self, Alphabet::Base58Btc)
    }

    /// Variable-length Base62 IEEE encoding (uppercase, lowercase,
    /// digits), at most 22 characters; the Nil UUID encodes as `"A"`.
    pub fn to_base62_ieee(&self) -> (s: String)
        ensures
            s@ == ascii_text(spec_to_integer(Alphabet::Base62Ieee, self.value())),
            1 <= s@.len() <= 22,
    {
        proof {
            lemma_uuid_wf(*self);
            lemma_base_powers();
            lemma_integer_len(Alphabet::Base62Ieee, self.value(), 22);
            lemma_min_value(self.value(), 62);
        }
        encode(self, Alphabet::Base62Ieee)
    }

    /// Variable-length Base62 sortable encoding (digits, uppercase,
    /// lowercase), at most 22 characters.
    pub fn to_base62_sort(&self) -> (s: String)
        ensures
            s@ == ascii_text(spec_to_integer(Alphabet::Base62Sort, self.value())),
            1 <= s@.len() <= 22,
    {
        proof {
            lemma_uuid_wf(*self);
            lemma_base_powers();
            lemma_integer_len(Alphabet::Base62Sort, self.value(), 22);
            lemma_min_value(self.value(), 62);
        }
        encode(self, Alphabet::Base62Sort)
    }
}

/// Parse a Base36 string (either case).
pub fn from_base36(input: &str) -> (r: Result<Uuid, DecodeError>)
    ensures
        decoded_as(r, spec_from_integer(Alphabet::Base36, "base36", input.spec_bytes())),
{
    decode("base36", input, Alphabet::Base36)
}

/// Parse a Base52 string (case-sensitive).
pub fn from_base52(input: &str) -> (r: Result<Uuid, DecodeError>)
    ensures
        decoded_as(r, spec_from_integer(Alphabet::Base52, "base52", input.spec_bytes())),
{
    decode("base52", input, Alphabet::Base52)
}

/// Parse a Base58 (Bitcoin) string (case-sensitive).
pub fn from_base58_btc(input: &str) -> (r: Result<Uuid, DecodeError>)
    ensures
        decoded_as(r, spec_from_integer(Alphabet::Base58Btc, "base58btc", input.spec_bytes())),
{
    decode("base58btc", input, Alphabet::Base58Btc)
}

/// Parse a Base62 (IEEE alphabet) string (case-sensitive).
pub fn from_base62_ieee(input: &str) -> (r: Result<Uuid, DecodeError>)
    ensures
        decoded_as(r, spec_from_integer(Alphabet::Base62Ieee, "base62ieee", input.spec_bytes())),
{
    decode("base62ieee", input, Alphabet::Base62Ieee)
}

/// Parse a Base62 (sortable alphabet) string (case-sensitive).
pub fn from_base62_sort(input: &str) -> (r: Result<Uuid, DecodeError>)
    ensures
        decoded_as(r, spec_from_integer(Alphabet::Base62Sort, "base62sort", input.spec_bytes())),
{
    decode("base62sort", input, Alphabet::Base62Sort)
}

/// Every integer decoder inverts its encoder: `from_base36(&u.to_base36())
/// == Ok(u)`, and likewise for Base52, Base58btc, Base62 IEEE and Base62
/// sort.
pub proof fn law_integer_round_trip(n: nat)
    requires
        n < uuid_limit(),
    ensures
        spec_from_integer(
            Alphabet::Base36,
            "base36",
            encode_utf8(ascii_text(spec_to_integer(Alphabet::Base36, n))),
        ) == Ok::<nat, DecodeError>(n),
        spec_from_integer(
            Alphabet::Base52,
            "base52",
            encode_utf8(ascii_text(spec_to_integer(Alphabet::Base52, n))),
        ) == Ok::<nat, DecodeError>(n),
        spec_from_integer(
            Alphabet::Base58Btc,
            "base58btc",
            encode_utf8(ascii_text(spec_to_integer(Alphabet::Base58Btc, n))),
        ) == Ok::<nat, DecodeError>(n),
        spec_from_integer(
            Alphabet::Base62Ieee,
            "base62ieee",
            encode_utf8(ascii_text(spec_to_integer(Alphabet::Base62Ieee, n))),
        ) == Ok::<nat, DecodeError>(n),
        spec_from_integer(
            Alphabet::Base62Sort,
            "base62sort",
            encode_utf8(ascii_text(spec_to_integer(Alphabet::Base62Sort, n))),
        ) == Ok::<nat, DecodeError>(n),
{
    lemma_base_powers();
    lemma_integer_round_trip(Alphabet::Base36, "base36", n, 25);
    lemma_integer_round_trip(Alphabet::Base52, "base52", n, 23);
    lemma_integer_round_trip(Alphabet::Base58Btc, "base58btc", n, 22);
    lemma_integer_round_trip(Alphabet::Base62Ieee, "base62ieee", n, 22);
    lemma_integer_round_trip(Alphabet::Base62Sort, "base62sort", n, 22);
}

} // verus!
