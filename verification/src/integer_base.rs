//! Variable-width integer encodings: a big-endian byte string read as one
//! non-negative integer and written in the alphabet's base without
//! leading-zero padding (or, for UUID-NCName-58, with one zero digit per
//! leading zero byte).
//!
//! Encoding is byte-wise long division on a copy of the input; decoding
//! is byte-wise multiply-and-add into a fixed-width buffer, so both work
//! for any width (the 17-byte Base62id buffer included).

use vstd::prelude::*;

use crate::alphabets::Alphabet;
use crate::digits::{
    digits_below, digits_value, lemma_min_value, lemma_pow_step, lemma_value_bound,
    lemma_value_concat, min_digits, zeros,
};
use crate::error::DecodeError;
use vstd::arithmetic::div_mod::{lemma_fundamental_div_mod, lemma_mod_bound};
use vstd::arithmetic::power::{lemma_pow_positive, pow};

verus! {

/// Longest input any integer-base UUID decoder accepts (Base36 of
/// `2^128 - 1` has 25 characters).
pub open spec fn max_integer_len() -> nat {
    26
}

/// Length of the run of bytes equal to `c` at the start of `s`.
pub open spec fn leading_run(s: Seq<u8>, c: u8) -> nat
    decreases s.len(),
{
    if s.len() == 0 || s[0] != c {
        0
    } else {
        1 + leading_run(s.drop_first(), c)
    }
}

/// Number of leading zero bytes of `s`.
pub open spec fn leading_zeros(s: Seq<u8>) -> nat {
    leading_run(s, 0)
}

/// The base-`base` digits of the integer held in `data`: the minimal
/// spelling, or, when `preserve_leading_zeros`, one zero digit per leading
/// zero byte followed by the minimal spelling of the non-zero rest.
pub open spec fn integer_digits(data: Seq<u8>, base: nat, preserve_leading_zeros: bool) -> Seq<u8> {
    let n = digits_value(data, 256);
    if preserve_leading_zeros {
        zeros(leading_zeros(data)) + if n == 0 {
            Seq::empty()
        } else {
            min_digits(n, base)
        }
    } else {
        min_digits(n, base)
    }
}

/// Reads `s` left to right as a base-`a.size()` integer. The first byte
/// that is not a symbol (reported at `offset + i`), or the first prefix
/// whose value reaches `limit`, stops the reading.
pub open spec fn read_integer(
    a: Alphabet,
    s: Seq<u8>,
    enc: &'static str,
    limit: nat,
    offset: nat,
) -> Result<nat, DecodeError>
    decreases s.len(),
{
    if s.len() == 0 {
        Ok(0)
    } else {
        match read_integer(a, s.drop_last(), enc, limit, offset) {
            Err(e) => Err(e),
            Ok(x) => match a.val(s.last()) {
                None => Err(
                    DecodeError::InvalidCharacter {
                        encoding: enc,
                        position: (offset + s.len() - 1) as usize,
                        byte: s.last(),
                    },
                ),
                Some(d) => if x * a.size() + d as nat >= limit {
                    Err(DecodeError::Overflow { encoding: enc })
                } else {
                    Ok(x * a.size() + d as nat)
                },
            },
        }
    }
}

/// The length screen of the integer decoders: empty and over-long inputs
/// are rejected before any character is looked at.
pub open spec fn check_integer_len(enc: &'static str, len: nat) -> Option<DecodeError> {
    if len == 0 {
        Some(DecodeError::InvalidLength { encoding: enc, expected: 1, got: 0 })
    } else if len > max_integer_len() {
        Some(DecodeError::InputTooLong { encoding: enc, max: 26, got: len as usize })
    } else {
        None
    }
}

/// A digit string worth zero is all zeros, and the other way round.
pub proof fn lemma_value_zero(s: Seq<u8>, base: nat)
    requires
        base >= 1,
    ensures
        (digits_value(s, base) == 0) <==> (forall|i: int| 0 <= i < s.len() ==> #[trigger] s[i] == 0),
    decreases s.len(),
{
    if s.len() > 0 {
        let p = s.drop_last();
        lemma_value_zero(p, base);
        let vp = digits_value(p, base);
        assert(vp * base + s.last() as nat == 0 <==> (vp == 0 && s.last() == 0)) by (nonlinear_arith)
            requires
                base >= 1,
        ;
        if digits_value(s, base) == 0 {
            assert forall|i: int| 0 <= i < s.len() implies #[trigger] s[i] == 0 by {
                if i < s.len() - 1 {
                    assert(s[i] == p[i]);
                }
            }
        } else {
            if forall|i: int| 0 <= i < s.len() ==> #[trigger] s[i] == 0 {
                assert forall|i: int| 0 <= i < p.len() implies #[trigger] p[i] == 0 by {
                    assert(p[i] == s[i]);
                }
                assert(s.last() == s[s.len() - 1]);
            }
        }
    }
}

/// Divides the big-endian integer in `buf` by `base` in place.
fn div_small(buf: &mut Vec<u8>, base: u32) -> (rem: u32)
    requires
        2 <= base <= 256,
    ensures
        final(buf)@.len() == old(buf)@.len(),
        rem < base,
        digits_value(old(buf)@, 256) == digits_value(final(buf)@, 256) * (base as nat) + rem as nat,
{
    let ghost orig = buf@;
    let mut rem: u32 = 0;
    let mut k: usize = 0;
    proof {
        assert(orig.take(0) =~= Seq::<u8>::empty());
        assert(buf@.take(0) =~= Seq::<u8>::empty());
        assert(digits_value(Seq::<u8>::empty(), 256) == 0);
    }
    while k < buf.len()
        invariant
            k <= buf@.len() == orig.len(),
            2 <= base <= 256,
            rem < base,
            forall|j: int| k <= j < orig.len() ==> #[trigger] buf@[j] == orig[j],
            digits_value(orig.take(k as int), 256) == digits_value(buf@.take(k as int), 256)
                * (base as nat) + rem as nat,
        decreases orig.len() - k,
    {
        let cur: u32 = rem * 256 + buf[k] as u32;
        let q = cur / base;
        let r = cur % base;
        proof {
            assert(cur < base * 256) by (nonlinear_arith)
                requires
                    rem < base,
                    cur == rem * 256 + buf@[k as int],
                    buf@[k as int] < 256,
            ;
            assert(q < 256) by (nonlinear_arith)
                requires
                    cur < base * 256,
                    q == cur / base,
                    base >= 2,
            ;
            lemma_fundamental_div_mod(cur as int, base as int);
            lemma_mod_bound(cur as int, base as int);
        }
        let ghost before = buf@;
        buf.set(k, q as u8);
        proof {
            let ot = orig.take((k + 1) as int);
            let bt = buf@.take((k + 1) as int);
            assert(ot.drop_last() =~= orig.take(k as int));
            assert(bt.drop_last() =~= before.take(k as int));
            assert(ot.last() == orig[k as int]);
            assert(orig[k as int] == before[k as int]);
            let vb = digits_value(before.take(k as int), 256);
            assert(digits_value(ot, 256) == digits_value(orig.take(k as int), 256) * 256
                + orig[k as int] as nat);
            assert(digits_value(bt, 256) == vb * 256 + q as nat);
            assert((vb * (base as nat) + rem as nat) * 256 + orig[k as int] as nat == (vb * 256
                + q as nat) * (base as nat) + r as nat) by (nonlinear_arith)
                requires
                    cur as nat == rem as nat * 256 + orig[k as int] as nat,
                    cur as nat == (base as nat) * (q as nat) + r as nat,
            ;
        }
        rem = r;
        k = k + 1;
    }
    proof {
        assert(orig.take(orig.len() as int) =~= orig);
        assert(buf@.take(orig.len() as int) =~= buf@);
    }
    rem
}

/// Multiplies the big-endian integer in `buf` by `base` and adds `digit`,
/// in place; returns what carries out of the top byte.
fn mul_add(buf: &mut Vec<u8>, base: u32, digit: u32) -> (carry: u32)
    requires
        2 <= base <= 256,
        digit < base,
    ensures
        final(buf)@.len() == old(buf)@.len(),
        carry < base,
        digits_value(final(buf)@, 256) + (carry as nat) * pow(256, old(buf)@.len()) == digits_value(
            old(buf)@,
            256,
        ) * (base as nat) + digit as nat,
{
    let ghost orig = buf@;
    let len = buf.len();
    let mut carry: u32 = digit;
    let mut k: usize = len;
    proof {
        assert(orig.skip(len as int) =~= Seq::<u8>::empty());
        assert(buf@.skip(len as int) =~= Seq::<u8>::empty());
        assert(pow(256, 0) == 1) by {
            vstd::arithmetic::power::lemma_pow0(256);
        }
        assert(digits_value(Seq::<u8>::empty(), 256) == 0);
    }
    while k > 0
        invariant
            k <= len == buf@.len() == orig.len(),
            2 <= base <= 256,
            carry < base,
            forall|j: int| 0 <= j < k ==> #[trigger] buf@[j] == orig[j],
            digits_value(buf@.skip(k as int), 256) + (carry as nat) * pow(256, (len - k) as nat)
                == digits_value(orig.skip(k as int), 256) * (base as nat) + digit as nat,
        decreases k,
    {
        let j = k - 1;
        assert(buf@[j as int] as u32 * base <= 255 * 256) by (nonlinear_arith)
            requires
                buf@[j as int] < 256,
                base <= 256,
        ;
        let cur: u32 = buf[j] as u32 * base + carry;
        let ghost before = buf@;
        proof {
            assert(cur < 256 * base) by (nonlinear_arith)
                requires
                    cur == buf@[j as int] as nat * base + carry,
                    buf@[j as int] < 256,
                    carry < base,
            ;
        }
        let lo = cur % 256;
        let hi = cur / 256;
        proof {
            lemma_fundamental_div_mod(cur as int, 256);
            lemma_mod_bound(cur as int, 256);
            assert(hi < base) by (nonlinear_arith)
                requires
                    cur < 256 * base,
                    hi == cur / 256,
            ;
        }
        buf.set(j, lo as u8);
        proof {
            let p = pow(256, (len - k) as nat);
            lemma_pow_step(256, (len - k) as nat);
            lemma_pow_positive(256, (len - k) as nat);
            let bs = buf@.skip(j as int);
            let os = orig.skip(j as int);
            assert(bs =~= seq![lo as u8] + before.skip(k as int));
            assert(os =~= seq![orig[j as int]] + orig.skip(k as int));
            lemma_value_concat(seq![lo as u8], before.skip(k as int), 256);
            lemma_value_concat(seq![orig[j as int]], orig.skip(k as int), 256);
            assert(seq![lo as u8].drop_last() =~= Seq::<u8>::empty());
            assert(seq![orig[j as int]].drop_last() =~= Seq::<u8>::empty());
            assert(digits_value(Seq::<u8>::empty(), 256) == 0);
            assert(digits_value(seq![lo as u8], 256) == lo as nat);
            assert(digits_value(seq![orig[j as int]], 256) == orig[j as int] as nat);
            assert(before.skip(k as int).len() == len - k);
            let rb = digits_value(before.skip(k as int), 256);
            let ro = digits_value(orig.skip(k as int), 256);
            assert((lo as nat) * p + rb + (hi as nat) * (256 * p) == (orig[j as int] as nat * p
                + ro) * (base as nat) + digit as nat) by (nonlinear_arith)
                requires
                    rb + (carry as nat) * p == ro * (base as nat) + digit as nat,
                    cur as nat == (orig[j as int] as nat) * (base as nat) + carry as nat,
                    cur as nat == 256 * (hi as nat) + lo as nat,
            ;
            assert((len - j) as nat == (len - k) as nat + 1);
        }
        carry = hi;
        k = j;
    }
    proof {
        assert(orig.skip(0) =~= orig);
        assert(buf@.skip(0) =~= buf@);
    }
    carry
}

/// The run at the start of `s` ends at `k` exactly when the first `k`
/// bytes are `c` and byte `k` is not (or there is none).
pub proof fn lemma_leading_run(s: Seq<u8>, c: u8, k: int)
    requires
        0 <= k <= s.len(),
        forall|i: int| 0 <= i < k ==> #[trigger] s[i] == c,
        k == s.len() || s[k] != c,
    ensures
        leading_run(s, c) == k,
    decreases k,
{
    if k > 0 {
        let t = s.drop_first();
        assert forall|i: int| 0 <= i < k - 1 implies #[trigger] t[i] == c by {
            assert(t[i] == s[i + 1]);
        }
        if k - 1 < t.len() {
            assert(t[k - 1] == s[k]);
        }
        lemma_leading_run(t, c, k - 1);
    }
}

/// The run of `c` at the start of `s`: its bytes are `c`, the next is not.
pub proof fn lemma_leading_run_props(s: Seq<u8>, c: u8)
    ensures
        leading_run(s, c) <= s.len(),
        forall|i: int| 0 <= i < leading_run(s, c) ==> #[trigger] s[i] == c,
        leading_run(s, c) < s.len() ==> s[leading_run(s, c) as int] != c,
    decreases s.len(),
{
    if s.len() > 0 && s[0] == c {
        let t = s.drop_first();
        lemma_leading_run_props(t, c);
        assert forall|i: int| 0 <= i < leading_run(s, c) implies #[trigger] s[i] == c by {
            if i > 0 {
                assert(s[i] == t[i - 1]);
            }
        }
        if leading_run(s, c) < s.len() {
            assert(s[leading_run(s, c) as int] == t[leading_run(t, c) as int]);
        }
    }
}

/// One step of the long division: if `x == q * base + rem` carries the
/// minimal spelling of `v0` with `tmp` (reversed) as its tail, then `q`
/// carries it with `tmp.push(rem)`.
proof fn lemma_division_step(v0: nat, x: nat, q: nat, rem: nat, base: nat, tmp: Seq<u8>)
    requires
        2 <= base <= 256,
        x > 0,
        rem < base,
        x == q * base + rem,
        min_digits(v0, base) == min_digits(x, base) + tmp.reverse(),
        digits_below(tmp, base),
    ensures
        q < x,
        q > 0 ==> min_digits(v0, base) == min_digits(q, base) + tmp.push(rem as u8).reverse(),
        q == 0 ==> min_digits(v0, base) == tmp.push(rem as u8).reverse(),
        digits_below(tmp.push(rem as u8), base),
{
    vstd::arithmetic::div_mod::lemma_fundamental_div_mod_converse(
        x as int,
        base as int,
        q as int,
        rem as int,
    );
    let t2 = tmp.push(rem as u8);
    assert(t2.reverse() =~= seq![rem as u8] + tmp.reverse());
    if x < base {
        vstd::arithmetic::div_mod::lemma_basic_div(x as int, base as int);
        assert(q == 0);
        assert(min_digits(x, base) == seq![x as u8]);
        assert(min_digits(v0, base) =~= t2.reverse());
    } else {
        assert(q > 0) by (nonlinear_arith)
            requires
                x == q * base + rem,
                x >= base,
                rem < base,
        ;
        assert(min_digits(x, base) == min_digits(q, base).push(rem as u8));
        assert(min_digits(v0, base) =~= min_digits(q, base) + t2.reverse());
    }
    assert(q < x) by (nonlinear_arith)
        requires
            x == q * base + rem,
            base >= 2,
            x > 0,
    ;
    assert forall|j: int| 0 <= j < t2.len() implies (#[trigger] t2[j] as nat) < base by {
        if j < tmp.len() {
            assert(t2[j] == tmp[j]);
        }
    }
}

/// Index of the first non-zero byte of `buf` (its length if none).
fn first_nonzero(buf: &Vec<u8>) -> (k: usize)
    ensures
        k <= buf@.len(),
        forall|i: int| 0 <= i < k ==> #[trigger] buf@[i] == 0,
        k < buf@.len() ==> buf@[k as int] != 0,
        k == leading_zeros(buf@),
        (k == buf@.len()) <==> (digits_value(buf@, 256) == 0),
{
    let mut k: usize = 0;
    while k < buf.len() && buf[k] == 0
        invariant
            k <= buf@.len(),
            forall|i: int| 0 <= i < k ==> #[trigger] buf@[i] == 0,
        decreases buf@.len() - k,
    {
        k += 1;
    }
    proof {
        lemma_leading_run(buf@, 0, k as int);
        lemma_value_zero(buf@, 256);
    }
    k
}

/// The base-`base` digits of the integer held in `data` (see
/// [`integer_digits`]): long division on a copy of the bytes, collecting
/// remainders least significant first.
pub fn encode_integer_padded(data: &[u8], base: u32, preserve_leading_zeros: bool) -> (r: Vec<u8>)
    requires
        2 <= base <= 256,
    ensures
        r@ == integer_digits(data@, base as nat, preserve_leading_zeros),
        digits_below(r@, base as nat),
{
    let n = data.len();
    let mut buf: Vec<u8> = Vec::new();
    crate::digits::append_range(&mut buf, data, 0, n);
    assert(buf@ =~= data@);
    let ghost v0 = digits_value(data@, 256);
    let lz = first_nonzero(&buf);
    if lz == n {
        let count = if preserve_leading_zeros {
            n
        } else {
            1
        };
        let mut out: Vec<u8> = Vec::new();
        let mut i: usize = 0;
        while i < count
            invariant
                i <= count,
                out@ =~= zeros(i as nat),
            decreases count - i,
        {
            out.push(0);
            i += 1;
        }
        proof {
            if preserve_leading_zeros {
                assert(zeros(n as nat) + Seq::<u8>::empty() =~= zeros(n as nat));
            } else {
                assert(min_digits(0, base as nat) == seq![0u8]);
                assert(out@ =~= seq![0u8]);
            }
        }
        return out;
    }
    let mut tmp: Vec<u8> = Vec::new();
    let mut start = lz;
    proof {
        assert(min_digits(v0, base as nat) =~= min_digits(v0, base as nat) + tmp@.reverse());
    }
    while start < n
        invariant
            2 <= base <= 256,
            buf@.len() == n,
            v0 > 0,
            (start < n) <==> (digits_value(buf@, 256) > 0),
            digits_value(buf@, 256) > 0 ==> min_digits(v0, base as nat) == min_digits(
                digits_value(buf@, 256),
                base as nat,
            ) + tmp@.reverse(),
            digits_value(buf@, 256) == 0 ==> min_digits(v0, base as nat) == tmp@.reverse(),
            digits_below(tmp@, base as nat),
        decreases digits_value(buf@, 256),
    {
        let ghost x = digits_value(buf@, 256);
        let rem = div_small(&mut buf, base);
        proof {
            lemma_division_step(v0, x, digits_value(buf@, 256), rem as nat, base as nat, tmp@);
        }
        tmp.push(rem as u8);
        start = first_nonzero(&buf);
    }
    let mut out: Vec<u8> = Vec::new();
    if preserve_leading_zeros {
        let mut i: usize = 0;
        while i < lz
            invariant
                i <= lz,
                out@ =~= zeros(i as nat),
            decreases lz - i,
        {
            out.push(0);
            i += 1;
        }
    }
    let ghost head = out@;
    let t = tmp.len();
    let mut i: usize = 0;
    while i < t
        invariant
            i <= t == tmp@.len(),
            out@ =~= head + tmp@.reverse().take(i as int),
        decreases t - i,
    {
        out.push(tmp[t - 1 - i]);
        i += 1;
        assert(tmp@.reverse().take(i as int) =~= tmp@.reverse().take((i - 1) as int).push(
            tmp@[t - i],
        ));
    }
    proof {
        assert(tmp@.reverse().take(t as int) =~= tmp@.reverse());
        lemma_min_value(v0, base as nat);
        assert(out@ =~= integer_digits(data@, base as nat, preserve_leading_zeros));
        let m = min_digits(v0, base as nat);
        assert forall|j: int| 0 <= j < out@.len() implies (#[trigger] out@[j] as nat) < base by {
            if preserve_leading_zeros && j < lz {
                assert(out@[j] == 0);
            } else {
                let off = if preserve_leading_zeros { lz as int } else { 0 };
                assert(out@[j] == m[j - off]);
            }
        }
    }
    out
}

/// Reads `input` as a base-`a.size()` integer into a `width`-byte
/// big-endian buffer (see [`read_integer`] with limit `256^width`).
pub fn decode_integer(
    enc: &'static str,
    input: &[u8],
    a: Alphabet,
    width: usize,
    offset: usize,
) -> (r: Result<Vec<u8>, DecodeError>)
    requires
        offset + input@.len() <= usize::MAX,
        2 <= a.size() <= 256,
    ensures
        match r {
            Ok(b) => b@.len() == width && read_integer(
                a,
                input@,
                enc,
                pow(256, width as nat) as nat,
                offset as nat,
            ) == Ok::<nat, DecodeError>(digits_value(b@, 256)),
            Err(e) => read_integer(a, input@, enc, pow(256, width as nat) as nat, offset as nat)
                == Err::<nat, DecodeError>(e),
        },
{
    let ghost limit = pow(256, width as nat) as nat;
    let mut out: Vec<u8> = vec![0u8; width];
    let base = a.base();
    let mut i: usize = 0;
    proof {
        lemma_pow_positive(256, width as nat);
        lemma_value_zero(out@, 256);
        assert(input@.take(0) =~= Seq::<u8>::empty());
    }
    while i < input.len()
        invariant
            i <= input@.len(),
            offset + input@.len() <= usize::MAX,
            out@.len() == width,
            base as nat == a.size(),
            2 <= base <= 256,
            limit == pow(256, width as nat),
            read_integer(a, input@.take(i as int), enc, limit, offset as nat) == Ok::<
                nat,
                DecodeError,
            >(digits_value(out@, 256)),
        decreases input@.len() - i,
    {
        let c = input[i];
        let ghost before = digits_value(out@, 256);
        proof {
            assert(input@.take((i + 1) as int).drop_last() =~= input@.take(i as int));
        }
        match a.value_of(c) {
            None => {
                proof {
                    lemma_read_integer_prefix_err(a, input@, enc, limit, offset as nat, (i + 1) as int);
                }
                return Err(DecodeError::InvalidCharacter { encoding: enc, position: offset + i, byte: c });
            },
            Some(v) => {
                proof {
                    crate::alphabets::lemma_val_sym(a, c);
                }
                let carry = mul_add(&mut out, base, v as u32);
                proof {
                    assert(digits_below(out@, 256));
                    lemma_value_bound(out@, 256);
                    lemma_pow_positive(256, width as nat);
                    let now = digits_value(out@, 256);
                    assert((carry != 0) <==> (before * a.size() + v as nat >= limit)) by (nonlinear_arith)
                        requires
                            now + (carry as nat) * limit == before * a.size() + v as nat,
                            now < limit,
                    ;
                }
                if carry != 0 {
                    proof {
                        lemma_read_integer_prefix_err(a, input@, enc, limit, offset as nat, (i + 1) as int);
                    }
                    return Err(DecodeError::Overflow { encoding: enc });
                }
            },
        }
        i += 1;
    }
    proof {
        assert(input@.take(input@.len() as int) =~= input@);
    }
    Ok(out)
}

/// A reading that fails on a prefix fails the same way on the whole.
pub proof fn lemma_read_integer_prefix_err(
    a: Alphabet,
    s: Seq<u8>,
    enc: &'static str,
    limit: nat,
    offset: nat,
    k: int,
)
    requires
        0 <= k <= s.len(),
        read_integer(a, s.take(k), enc, limit, offset) is Err,
    ensures
        read_integer(a, s, enc, limit, offset) == read_integer(a, s.take(k), enc, limit, offset),
    decreases s.len() - k,
{
    if k < s.len() {
        assert(s.take(k + 1).drop_last() =~= s.take(k));
        lemma_read_integer_prefix_err(a, s, enc, limit, offset, k + 1);
    } else {
        assert(s.take(k) =~= s);
    }
}

/// Reads a Base58-style padded integer: each leading zero symbol stands for
/// one leading zero byte of the `width`-byte result. A bad symbol is
/// reported at `offset` plus its index in `s`.
pub open spec fn read_integer_padded(
    a: Alphabet,
    s: Seq<u8>,
    enc: &'static str,
    width: nat,
    offset: nat,
) -> Result<nat, DecodeError> {
    let z = leading_run(s, a.sym(0));
    if z > width {
        Err(
            DecodeError::SchemeViolation {
                encoding: enc,
                reason: "too many leading zero markers for output width",
            },
        )
    } else {
        read_integer(a, s.skip(z as int), enc, pow(256, (width - z) as nat) as nat, offset + z)
    }
}

/// Decodes a Base58-style padded integer into `width` bytes (see
/// [`read_integer_padded`]).
pub fn decode_integer_padded(
    enc: &'static str,
    input: &[u8],
    a: Alphabet,
    width: usize,
    offset: usize,
) -> (r: Result<Vec<u8>, DecodeError>)
    requires
        offset + input@.len() <= usize::MAX,
        2 <= a.size() <= 256,
    ensures
        match r {
            Ok(b) => b@.len() == width && read_integer_padded(a, input@, enc, width as nat, offset as nat)
                == Ok::<nat, DecodeError>(digits_value(b@, 256)),
            Err(e) => read_integer_padded(a, input@, enc, width as nat, offset as nat) == Err::<
                nat,
                DecodeError,
            >(e),
        },
{
    let zero = a.symbol(0);
    let mut leading: usize = 0;
    while leading < input.len() && input[leading] == zero
        invariant
            leading <= input@.len(),
            forall|j: int| 0 <= j < leading ==> #[trigger] input@[j] == zero,
        decreases input@.len() - leading,
    {
        leading += 1;
    }
    proof {
        lemma_leading_run(input@, zero, leading as int);
    }
    if leading > width {
        return Err(
            DecodeError::SchemeViolation {
                encoding: enc,
                reason: "too many leading zero markers for output width",
            },
        );
    }
    let body = &input[leading..input.len()];
    assert(body@ =~= input@.skip(leading as int));
    let rest = decode_integer(enc, body, a, width - leading, offset + leading)?;
    let mut out: Vec<u8> = vec![0u8; leading];
    crate::digits::append_range(&mut out, rest.as_slice(), 0, rest.len());
    proof {
        assert(rest@.subrange(0, rest@.len() as int) =~= rest@);
        assert(out@ =~= zeros(leading as nat) + rest@);
        crate::digits::lemma_value_leading_zeros(leading as nat, rest@, 256);
    }
    Ok(out)
}

/// The length screen of the integer decoders (see [`check_integer_len`]).
pub fn check_integer_input_len(enc: &'static str, len: usize) -> (r: Result<(), DecodeError>)
    ensures
        match check_integer_len(enc, len as nat) {
            Some(e) => r == Err::<(), DecodeError>(e),
            None => r is Ok,
        },
{
    if len == 0 {
        return Err(DecodeError::InvalidLength { encoding: enc, expected: 1, got: 0 });
    }
    if len > 26 {
        return Err(DecodeError::InputTooLong { encoding: enc, max: 26, got: len });
    }
    Ok(())
}

/// A successful integer reading is a successful digit reading whose
/// digits are worth the value read.
pub proof fn lemma_read_integer_digits(
    a: Alphabet,
    s: Seq<u8>,
    enc: &'static str,
    limit: nat,
    offset: nat,
)
    requires
        read_integer(a, s, enc, limit, offset) is Ok,
    ensures
        crate::alphabets::read_digits(a, s, enc, offset) is Ok,
        digits_value(crate::alphabets::read_digits(a, s, enc, offset).unwrap(), a.size())
            == read_integer(a, s, enc, limit, offset).unwrap(),
    decreases s.len(),
{
    if s.len() > 0 {
        lemma_read_integer_digits(a, s.drop_last(), enc, limit, offset);
        let d = crate::alphabets::read_digits(a, s.drop_last(), enc, offset).unwrap();
        let x = a.val(s.last()).unwrap();
        assert(d.push(x).drop_last() =~= d);
    } else {
        assert(digits_value(Seq::<u8>::empty(), a.size()) == 0);
    }
}

} // verus!
