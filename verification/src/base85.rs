//! Z85 (Base85): 16 bytes ↔ 20 characters. Each 4-byte big-endian chunk
//! is written as a 5-character base-85 number, most significant character
//! first, in the ZeroMQ Z85 alphabet. On decode, each 5-character group
//! must fit in 32 bits.

use vstd::prelude::*;

use crate::alphabets::{read_digits, read_digits_of, spell, spell_digits, Alphabet};
use crate::digits::{
    append_range, digits_below, digits_to_u128, digits_value, fixed_digits, fixed_digits_of,
    lemma_fixed_below, lemma_fixed_value, lemma_value_bound,
};
use crate::error::DecodeError;
use crate::text::{all_ascii, ascii_text, lemma_ascii_utf8, string_from_ascii};
use crate::{decoded_as, uuid_limit, Uuid};
use vstd::arithmetic::power::pow;
use vstd::string::StringSliceAdditionalSpecFns;
use vstd::utf8::encode_utf8;

verus! {

/// Chunk `c` (0 to 3, most significant first) of a 128-bit value: its
/// bytes `4c..4c+4` read big-endian.
pub open spec fn z85_chunk(n: nat, c: int) -> nat {
    if c == 0 {
        (n / 0x1_0000_0000_0000_0000_0000_0000) % 0x1_0000_0000
    } else if c == 1 {
        (n / 0x1_0000_0000_0000_0000) % 0x1_0000_0000
    } else if c == 2 {
        (n / 0x1_0000_0000) % 0x1_0000_0000
    } else {
        n % 0x1_0000_0000
    }
}

/// The five base-85 digits of chunk `c`.
pub open spec fn z85_chunk_digits(n: nat, c: int) -> Seq<u8> {
    fixed_digits(z85_chunk(n, c), 85, 5)
}

/// The 20-character Z85 spelling of a 128-bit value.
pub open spec fn spec_to_z85(n: nat) -> Seq<u8> {
    spell(
        Alphabet::Z85,
        z85_chunk_digits(n, 0) + z85_chunk_digits(n, 1) + z85_chunk_digits(n, 2)
            + z85_chunk_digits(n, 3),
    )
}

/// Reads the 5-character group `c` of a 20-byte input: a byte outside the
/// alphabet is reported at its index; a group worth more than 32 bits is
/// `Overflow`.
pub open spec fn read_z85_chunk(s: Seq<u8>, c: int) -> Result<nat, DecodeError> {
    match read_digits(Alphabet::Z85, s.subrange(5 * c, 5 * c + 5), "Z85", (5 * c) as nat) {
        Err(e) => Err(e),
        Ok(d) => {
            let v = digits_value(d, 85);
            if v > 0xffff_ffff {
                Err(DecodeError::Overflow { encoding: "Z85" })
            } else {
                Ok(v)
            }
        },
    }
}

/// Z85 decoding: exactly 20 bytes, then the four groups in order.
pub open spec fn spec_from_z85(s: Seq<u8>) -> Result<nat, DecodeError> {
    if s.len() != 20 {
        Err(DecodeError::InvalidLength { encoding: "Z85", expected: 20, got: s.len() as usize })
    } else {
        match read_z85_chunk(s, 0) {
            Err(e) => Err(e),
            Ok(c0) => match read_z85_chunk(s, 1) {
                Err(e) => Err(e),
                Ok(c1) => match read_z85_chunk(s, 2) {
                    Err(e) => Err(e),
                    Ok(c2) => match read_z85_chunk(s, 3) {
                        Err(e) => Err(e),
                        Ok(c3) => Ok(
                            c0 * 0x1_0000_0000_0000_0000_0000_0000 + c1 * 0x1_0000_0000_0000_0000
                                + c2 * 0x1_0000_0000 + c3,
                        ),
                    },
                },
            },
        }
    }
}

proof fn lemma_pow85_5()
    ensures
        pow(85, 5) == 4437053125,
{
    reveal(pow);
    assert(pow(85, 0) == 1);
    assert(pow(85, 1) == 85);
    assert(pow(85, 2) == 7225);
    assert(pow(85, 3) == 614125);
    assert(pow(85, 4) == 52200625);
    assert(pow(85, 5) == 4437053125);
}

/// A 128-bit value is the sum of its four chunks.
proof fn lemma_chunks(n: nat)
    requires
        n < uuid_limit(),
    ensures
        n == z85_chunk(n, 0) * 0x1_0000_0000_0000_0000_0000_0000 + z85_chunk(n, 1)
            * 0x1_0000_0000_0000_0000 + z85_chunk(n, 2) * 0x1_0000_0000 + z85_chunk(n, 3),
        z85_chunk(n, 0) <= 0xffff_ffff,
        z85_chunk(n, 1) <= 0xffff_ffff,
        z85_chunk(n, 2) <= 0xffff_ffff,
        z85_chunk(n, 3) <= 0xffff_ffff,
{
}

impl Uuid {
    /// 20-character Z85 encoding.
    pub fn to_base85_z85(&self) -> (s: String)
        ensures
            s@ == ascii_text(spec_to_z85(self.value())),
            s@.len() == 20,
    {
        let v = self.to_u128();
        let mut d: Vec<u8> = Vec::new();
        let mut c: usize = 0;
        while c < 4
            invariant
                c <= 4,
                v as nat == self.value(),
                d@ == if c == 0 {
                    Seq::<u8>::empty()
                } else if c == 1 {
                    z85_chunk_digits(v as nat, 0)
                } else if c == 2 {
                    z85_chunk_digits(v as nat, 0) + z85_chunk_digits(v as nat, 1)
                } else if c == 3 {
                    z85_chunk_digits(v as nat, 0) + z85_chunk_digits(v as nat, 1)
                        + z85_chunk_digits(v as nat, 2)
                } else {
                    z85_chunk_digits(v as nat, 0) + z85_chunk_digits(v as nat, 1)
                        + z85_chunk_digits(v as nat, 2) + z85_chunk_digits(v as nat, 3)
                },
                digits_below(d@, 85),
                d@.len() == 5 * c,
            decreases 4 - c,
        {
            let chunk: u128 = if c == 0 {
                (v / 0x1_0000_0000_0000_0000_0000_0000) % 0x1_0000_0000
            } else if c == 1 {
                (v / 0x1_0000_0000_0000_0000) % 0x1_0000_0000
            } else if c == 2 {
                (v / 0x1_0000_0000) % 0x1_0000_0000
            } else {
                v % 0x1_0000_0000
            };
            let cd = fixed_digits_of(chunk, 85, 5);
            let ghost before = d@;
            proof {
                lemma_fixed_below(chunk as nat, 85, 5);
            }
            append_range(&mut d, cd.as_slice(), 0, 5);
            proof {
                assert(cd@.subrange(0, 5) =~= cd@);
                assert(cd@ == z85_chunk_digits(v as nat, c as int));
                assert forall|i: int| 0 <= i < d@.len() implies (#[trigger] d@[i] as nat) < 85 by {
                    if i < before.len() {
                        assert(d@[i] == before[i]);
                    } else {
                        assert(d@[i] == cd@[i - before.len()]);
                    }
                }
            }
            c += 1;
        }
        let s = spell_digits(Alphabet::Z85, &d);
        string_from_ascii(s)
    }
}

/// Parse a 20-character Z85 string.
pub fn from_base85_z85(input: &str) -> (r: Result<Uuid, DecodeError>)
    ensures
        decoded_as(r, spec_from_z85(input.spec_bytes())),
{
    let bytes = input.as_bytes();
    if bytes.len() != 20 {
        return Err(DecodeError::InvalidLength { encoding: "Z85", expected: 20, got: bytes.len() });
    }
    let c0 = read_chunk(bytes, 0)?;
    let c1 = read_chunk(bytes, 1)?;
    let c2 = read_chunk(bytes, 2)?;
    let c3 = read_chunk(bytes, 3)?;
    let v: u128 = c0 as u128 * 0x1_0000_0000_0000_0000_0000_0000 + c1 as u128 * 0x1_0000_0000_0000_0000
        + c2 as u128 * 0x1_0000_0000 + c3 as u128;
    Ok(Uuid::from_u128(v))
}

/// Reads group `c` of a 20-byte Z85 input (see [`read_z85_chunk`]).
fn read_chunk(bytes: &[u8], c: usize) -> (r: Result<u32, DecodeError>)
    requires
        bytes@.len() == 20,
        c < 4,
    ensures
        match r {
            Ok(v) => read_z85_chunk(bytes@, c as int) == Ok::<nat, DecodeError>(v as nat),
            Err(e) => read_z85_chunk(bytes@, c as int) == Err::<nat, DecodeError>(e),
        },
{
    let group = &bytes[5 * c..5 * c + 5];
    assert(group@ =~= bytes@.subrange(5 * c as int, 5 * c as int + 5));
    let d = read_digits_of(Alphabet::Z85, group, "Z85", 5 * c)?;
    proof {
        crate::alphabets::lemma_read_digits_ok(Alphabet::Z85, group@, "Z85", (5 * c) as nat);
        lemma_value_bound(d@, 85);
        lemma_pow85_5();
    }
    let n = digits_to_u128(&d, 85);
    if n > 0xffff_ffff {
        return Err(DecodeError::Overflow { encoding: "Z85" });
    }
    Ok(n as u32)
}

/// Z85 decoding inverts Z85 encoding: `from_base85_z85(&u.to_base85_z85())
/// == Ok(u)`.
pub proof fn law_z85_round_trip(n: nat)
    requires
        n < uuid_limit(),
    ensures
        spec_from_z85(encode_utf8(ascii_text(spec_to_z85(n)))) == Ok::<nat, DecodeError>(n),
        all_ascii(spec_to_z85(n)),
{
    lemma_chunks(n);
    lemma_pow85_5();
    let a = Alphabet::Z85;
    let d0 = z85_chunk_digits(n, 0);
    let d1 = z85_chunk_digits(n, 1);
    let d2 = z85_chunk_digits(n, 2);
    let d3 = z85_chunk_digits(n, 3);
    lemma_fixed_below(z85_chunk(n, 0), 85, 5);
    lemma_fixed_below(z85_chunk(n, 1), 85, 5);
    lemma_fixed_below(z85_chunk(n, 2), 85, 5);
    lemma_fixed_below(z85_chunk(n, 3), 85, 5);
    let d = d0 + d1 + d2 + d3;
    assert(digits_below(d, 85)) by {
        assert forall|i: int| 0 <= i < d.len() implies (#[trigger] d[i] as nat) < 85 by {
            if i < 5 {
                assert(d[i] == d0[i]);
            } else if i < 10 {
                assert(d[i] == d1[i - 5]);
            } else if i < 15 {
                assert(d[i] == d2[i - 10]);
            } else {
                assert(d[i] == d3[i - 15]);
            }
        }
    }
    let s = spec_to_z85(n);
    crate::alphabets::lemma_spell_ascii(a, d);
    lemma_ascii_utf8(s);
    assert(s.subrange(0, 5) =~= spell(a, d0));
    assert(s.subrange(5, 10) =~= spell(a, d1));
    assert(s.subrange(10, 15) =~= spell(a, d2));
    assert(s.subrange(15, 20) =~= spell(a, d3));
    crate::alphabets::lemma_read_spell(a, d0, "Z85", 0);
    crate::alphabets::lemma_read_spell(a, d1, "Z85", 5);
    crate::alphabets::lemma_read_spell(a, d2, "Z85", 10);
    crate::alphabets::lemma_read_spell(a, d3, "Z85", 15);
    lemma_fixed_value(z85_chunk(n, 0), 85, 5);
    lemma_fixed_value(z85_chunk(n, 1), 85, 5);
    lemma_fixed_value(z85_chunk(n, 2), 85, 5);
    lemma_fixed_value(z85_chunk(n, 3), 85, 5);
    vstd::arithmetic::div_mod::lemma_small_mod(z85_chunk(n, 0), 4437053125);
    vstd::arithmetic::div_mod::lemma_small_mod(z85_chunk(n, 1), 4437053125);
    vstd::arithmetic::div_mod::lemma_small_mod(z85_chunk(n, 2), 4437053125);
    vstd::arithmetic::div_mod::lemma_small_mod(z85_chunk(n, 3), 4437053125);
}

} // verus!
