//! Bit-stream encode/decode used by Base32 and Base64 (and by the
//! UUID-NCName body sections).
//!
//! A 128-bit value is written as a fixed number of `k`-bit characters;
//! the few bits past the value's end (the pad) are zero. In numbers: the
//! value times `p = 2^pad` written with `width` base-`2^k` digits. For a
//! UUID, Base32 has `k = 5`, 26 characters and 2 pad bits; Base64 has
//! `k = 6`, 22 characters and 4 pad bits. Padding characters (`=`) are
//! never written: every UUID has the same width.

use vstd::prelude::*;

use crate::alphabets::{read_digits, read_digits_of, spell, spell_digits, Alphabet};
use crate::digits::{
    append_range, digits_below, digits_to_u128, digits_value, fixed_digits, fixed_digits_of,
    lemma_fixed_below, lemma_fixed_value, lemma_pow_step, lemma_value_bound,
};
use crate::error::DecodeError;
use crate::text::all_ascii;
use crate::uuid_limit;
use vstd::arithmetic::div_mod::{
    lemma_div_denominator, lemma_div_multiples_vanish, lemma_div_multiples_vanish_fancy,
    lemma_fundamental_div_mod, lemma_mod_bound, lemma_mod_multiples_vanish, lemma_small_mod,
    lemma_truncate_middle,
};
use vstd::arithmetic::mul::lemma_mul_is_commutative;
use vstd::arithmetic::power::{lemma_pow_positive, pow};

verus! {

/// The shape of a bit-stream encoding of a 128-bit value: `width` digits
/// in base `a.size() == m * p`, where the last digit carries `m` values of
/// the number and a pad factor `p`, and `base^(width-1) * m == 2^128`.
pub open spec fn bit_layout(a: Alphabet, m: nat, p: nat, width: nat) -> bool {
    &&& 2 <= a.size() <= 256
    &&& m >= 1
    &&& p >= 1
    &&& a.size() == m * p
    &&& width >= 1
    &&& pow(a.size() as int, (width - 1) as nat) * m == uuid_limit()
}

/// `n` followed by the pad bits, spelled in `width` symbols of `a`.
pub open spec fn spec_write_bits(a: Alphabet, p: nat, width: nat, n: nat) -> Seq<u8> {
    spell(a, fixed_digits(n * p, a.size(), width))
}

/// Reads `s` as digits of `a`: the first byte that is not a symbol is
/// reported at `offset + i`; non-zero pad bits are `NonCanonicalPadding`;
/// otherwise the value without its pad.
pub open spec fn spec_read_bits(
    a: Alphabet,
    p: nat,
    enc: &'static str,
    s: Seq<u8>,
    offset: nat,
) -> Result<nat, DecodeError> {
    match read_digits(a, s, enc, offset) {
        Err(e) => Err(e),
        Ok(d) => {
            let v = digits_value(d, a.size());
            if v % p != 0 {
                Err(DecodeError::NonCanonicalPadding { encoding: enc })
            } else {
                Ok(v / p)
            }
        },
    }
}

/// Splitting off the last digit of the padded value.
proof fn lemma_write_split(n: nat, b: nat, p: nat, m: nat, w: nat)
    requires
        b == m * p,
        p >= 1,
        m >= 1,
        w >= 1,
        b <= 256,
    ensures
        fixed_digits(n * p, b, w) == fixed_digits(n / m, b, (w - 1) as nat).push(
            ((n % m) * p) as u8,
        ),
{
    lemma_mul_is_commutative(n as int, p as int);
    lemma_mul_is_commutative(m as int, p as int);
    assert(n * p == p * n);
    assert(b == p * m);
    lemma_div_denominator((p * n) as int, p as int, m as int);
    lemma_div_multiples_vanish(n as int, p as int);
    assert((p * n) / p == n);
    assert(((p * n) / p) / m == (p * n) / (p * m));
    lemma_truncate_middle(n as int, p as int, m as int);
    lemma_mul_is_commutative((n % m) as int, p as int);
    assert((n * p) / b == n / m);
    assert((n * p) % b == (n % m) * p);
}

/// Removing the pad from a value whose last digit is `last`.
proof fn lemma_read_split(hi: nat, last: nat, b: nat, p: nat, m: nat)
    requires
        b == m * p,
        p >= 1,
        m >= 1,
        last < b,
    ensures
        (hi * b + last) % p == last % p,
        (hi * b + last) / p == hi * m + last / p,
        last / p < m,
{
    lemma_fundamental_div_mod(last as int, p as int);
    lemma_mod_bound(last as int, p as int);
    let q = last / p;
    let r = last % p;
    assert(hi * b + last == p * (hi * m + q) + r) by (nonlinear_arith)
        requires
            b == m * p,
            last == p * q + r,
    ;
    lemma_mod_multiples_vanish((hi * m + q) as int, r as int, p as int);
    lemma_small_mod(r, p);
    lemma_div_multiples_vanish_fancy((hi * m + q) as int, r as int, p as int);
    assert(q < m) by (nonlinear_arith)
        requires
            last == p * q + r,
            last < m * p,
            r >= 0,
            p >= 1,
    ;
}

/// Writes `n` in `width` symbols of `a` (see [`spec_write_bits`]).
pub fn encode_bits(n: u128, a: Alphabet, m: u128, p: u128, width: usize) -> (r: Vec<u8>)
    requires
        bit_layout(a, m as nat, p as nat, width as nat),
    ensures
        r@ == spec_write_bits(a, p as nat, width as nat, n as nat),
        r@.len() == width,
        all_ascii(r@),
{
    let base: u128 = a.base() as u128;
    let q = n / m;
    let low = n % m;
    proof {
        lemma_mod_bound(n as int, m as int);
        assert(low * p < base) by (nonlinear_arith)
            requires
                low < m,
                base == m * p,
                p >= 1,
        ;
    }
    let last = (low * p) as u8;
    let mut d = fixed_digits_of(q, base, width - 1);
    d.push(last);
    proof {
        lemma_write_split(n as nat, base as nat, p as nat, m as nat, width as nat);
        lemma_fixed_below(n as nat * p as nat, base as nat, width as nat);
    }
    spell_digits(a, &d)
}

/// Reads a bit-stream spelling of a 128-bit value (see
/// [`spec_read_bits`]); `input` must have the layout's width.
pub fn decode_bits(
    enc: &'static str,
    input: &[u8],
    a: Alphabet,
    m: u128,
    p: u128,
    offset: usize,
) -> (r: Result<u128, DecodeError>)
    requires
        bit_layout(a, m as nat, p as nat, input@.len()),
        offset + input@.len() <= usize::MAX,
    ensures
        match r {
            Ok(v) => spec_read_bits(a, p as nat, enc, input@, offset as nat) == Ok::<
                nat,
                DecodeError,
            >(v as nat),
            Err(e) => spec_read_bits(a, p as nat, enc, input@, offset as nat) == Err::<
                nat,
                DecodeError,
            >(e),
        },
{
    let d = read_digits_of(a, input, enc, offset)?;
    proof {
        crate::alphabets::lemma_read_digits_ok(a, input@, enc, offset as nat);
    }
    let w = d.len();
    let base: u128 = a.base() as u128;
    let mut head: Vec<u8> = Vec::new();
    append_range(&mut head, d.as_slice(), 0, w - 1);
    proof {
        assert(head@ =~= d@.drop_last());
        assert(digits_below(head@, base as nat)) by {
            assert forall|i: int| 0 <= i < head@.len() implies (#[trigger] head@[i] as nat)
                < base by {
                assert(head@[i] == d@[i]);
            }
        }
        lemma_value_bound(head@, base as nat);
        lemma_pow_positive(base as int, (w - 1) as nat);
        assert(digits_value(head@, base as nat) <= u128::MAX) by (nonlinear_arith)
            requires
                digits_value(head@, base as nat) < pow(base as int, (w - 1) as nat),
                pow(base as int, (w - 1) as nat) * (m as nat) == uuid_limit(),
                m >= 1,
        ;
    }
    let hi = digits_to_u128(&head, base);
    let last = d[w - 1] as u128;
    proof {
        assert((d@[w - 1] as nat) < base);
        lemma_read_split(hi as nat, last as nat, base as nat, p as nat, m as nat);
        assert(d@.last() == d@[w - 1]);
        assert(digits_value(d@, base as nat) == hi as nat * base as nat + last as nat);
    }
    if last % p != 0 {
        return Err(DecodeError::NonCanonicalPadding { encoding: enc });
    }
    proof {
        assert(hi * m + last / p < uuid_limit()) by (nonlinear_arith)
            requires
                hi < pow(base as int, (w - 1) as nat),
                pow(base as int, (w - 1) as nat) * (m as nat) == uuid_limit(),
                last / p < m,
        ;
    }
    Ok(hi * m + last / p)
}

/// Reading a bit-stream spelling gives the value back.
pub proof fn lemma_bits_round_trip(
    a: Alphabet,
    m: nat,
    p: nat,
    width: nat,
    n: nat,
    enc: &'static str,
    offset: nat,
)
    requires
        bit_layout(a, m, p, width),
        n < uuid_limit(),
    ensures
        spec_read_bits(a, p, enc, spec_write_bits(a, p, width, n), offset) == Ok::<
            nat,
            DecodeError,
        >(n),
        spec_write_bits(a, p, width, n).len() == width,
        all_ascii(spec_write_bits(a, p, width, n)),
{
    let b = a.size();
    let d = fixed_digits(n * p, b, width);
    lemma_fixed_below(n * p, b, width);
    crate::alphabets::lemma_read_spell(a, d, enc, offset);
    crate::alphabets::lemma_spell_ascii(a, d);
    lemma_fixed_value(n * p, b, width);
    lemma_pow_step(b, (width - 1) as nat);
    let pw = pow(b as int, (width - 1) as nat);
    assert(pow(b as int, width) == pw * m * p) by (nonlinear_arith)
        requires
            pow(b as int, width) == b * pw,
            b == m * p,
    ;
    assert(n * p < pow(b as int, width)) by (nonlinear_arith)
        requires
            n < pw * m,
            pow(b as int, width) == pw * m * p,
            p >= 1,
    ;
    lemma_small_mod(n * p, pow(b as int, width) as nat);
    lemma_mul_is_commutative(n as int, p as int);
    lemma_div_multiples_vanish(n as int, p as int);
    vstd::arithmetic::div_mod::lemma_mod_multiples_basic(n as int, p as int);
}

} // verus!
