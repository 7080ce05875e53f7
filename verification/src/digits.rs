//! Positional notation: the value of a digit string, its fixed-width and
//! minimal-width spellings, and the executable arithmetic on digit
//! buffers that the encoders and decoders share.

use vstd::prelude::*;
use vstd::arithmetic::div_mod::*;
use vstd::arithmetic::mul::*;
use vstd::arithmetic::power::*;

verus! {

/// Big-endian value of the digit string `d` read in base `base`.
pub open spec fn digits_value(d: Seq<u8>, base: nat) -> nat
    decreases d.len(),
{
    if d.len() == 0 {
        0
    } else {
        digits_value(d.drop_last(), base) * base + d.last() as nat
    }
}

/// Every digit of `d` is below `base`.
pub open spec fn digits_below(d: Seq<u8>, base: nat) -> bool {
    forall|i: int| 0 <= i < d.len() ==> (#[trigger] d[i] as nat) < base
}

/// The `width` least significant base-`base` digits of `n`, most
/// significant first.
pub open spec fn fixed_digits(n: nat, base: nat, width: nat) -> Seq<u8>
    decreases width,
{
    if width == 0 {
        Seq::empty()
    } else {
        fixed_digits(n / base, base, (width - 1) as nat).push((n % base) as u8)
    }
}

/// The shortest base-`base` spelling of `n`: no leading zero digit, and a
/// single zero digit for `n == 0`.
pub open spec fn min_digits(n: nat, base: nat) -> Seq<u8>
    decreases n,
{
    if base < 2 || n < base {
        seq![n as u8]
    } else {
        proof {
            lemma_div_decreases(n as int, base as int);
        }
        min_digits(n / base, base).push((n % base) as u8)
    }
}

/// `count` zero digits.
pub open spec fn zeros(count: nat) -> Seq<u8> {
    Seq::new(count, |i: int| 0u8)
}

pub proof fn lemma_fixed_len(n: nat, base: nat, width: nat)
    requires
        base >= 1,
    ensures
        fixed_digits(n, base, width).len() == width,
    decreases width,
{
    if width > 0 {
        lemma_div_pos_is_pos(n as int, base as int);
        lemma_fixed_len(n / base, base, (width - 1) as nat);
        assert(fixed_digits(n, base, width) == fixed_digits(n / base, base, (width - 1) as nat).push(
            (n % base) as u8,
        ));
    }
}

pub proof fn lemma_fixed_below(n: nat, base: nat, width: nat)
    requires
        1 <= base <= 256,
    ensures
        digits_below(fixed_digits(n, base, width), base),
        fixed_digits(n, base, width).len() == width,
    decreases width,
{
    lemma_fixed_len(n, base, width);
    if width > 0 {
        lemma_div_pos_is_pos(n as int, base as int);
        lemma_fixed_below(n / base, base, (width - 1) as nat);
        lemma_mod_bound(n as int, base as int);
        let f = fixed_digits(n, base, width);
        let g = fixed_digits(n / base, base, (width - 1) as nat);
        assert forall|i: int| 0 <= i < f.len() implies (#[trigger] f[i] as nat) < base by {
            if i < g.len() {
                assert(f[i] == g[i]);
            }
        }
    }
}

pub proof fn lemma_pow_step(b: nat, e: nat)
    ensures
        pow(b as int, e + 1) == b * pow(b as int, e),
        b >= 1 ==> pow(b as int, e) >= 1,
{
    reveal(pow);
    if b >= 1 {
        lemma_pow_positive(b as int, e);
    }
}

/// Reading back a fixed-width spelling gives the number modulo the width.
pub proof fn lemma_fixed_value(n: nat, base: nat, width: nat)
    requires
        2 <= base <= 256,
    ensures
        digits_value(fixed_digits(n, base, width), base) == n % (pow(base as int, width) as nat),
    decreases width,
{
    reveal(pow);
    if width == 0 {
        assert(pow(base as int, 0) == 1);
        assert(n % 1 == 0) by (nonlinear_arith);
        assert(fixed_digits(n, base, width) =~= Seq::<u8>::empty());
    } else {
        let w1 = (width - 1) as nat;
        lemma_div_pos_is_pos(n as int, base as int);
        lemma_fixed_value(n / base, base, w1);
        let f = fixed_digits(n, base, width);
        let g = fixed_digits(n / base, base, w1);
        assert(f == g.push((n % base) as u8));
        assert(f.drop_last() =~= g);
        lemma_mod_bound(n as int, base as int);
        assert(f.last() as nat == n % base);
        lemma_pow_step(base, w1);
        lemma_pow_positive(base as int, w1);
        let p = pow(base as int, w1);
        lemma_mod_breakdown(n as int, base as int, p);
        assert(digits_value(f, base) == digits_value(g, base) * base + n % base);
        assert(digits_value(g, base) == (n / base) % (p as nat));
        assert((n / base) % (p as nat) == (n as int / base as int) % p);
        lemma_mul_is_commutative(((n / base) % (p as nat)) as int, base as int);
        assert(base * p == pow(base as int, width));
    }
}

/// A digit string below its base is worth less than `base^len`.
pub proof fn lemma_value_bound(d: Seq<u8>, base: nat)
    requires
        base >= 1,
        digits_below(d, base),
    ensures
        digits_value(d, base) < pow(base as int, d.len()),
    decreases d.len(),
{
    reveal(pow);
    if d.len() > 0 {
        let p = d.drop_last();
        assert(digits_below(p, base)) by {
            assert forall|i: int| 0 <= i < p.len() implies (#[trigger] p[i] as nat) < base by {
                assert(p[i] == d[i]);
            }
        }
        lemma_value_bound(p, base);
        assert((d.last() as nat) < base) by {
            assert((d[d.len() - 1] as nat) < base);
        }
        let v = digits_value(p, base);
        let pp = pow(base as int, p.len());
        lemma_pow_step(base, p.len());
        lemma_mul_is_commutative(pp, base as int);
        assert(digits_value(d, base) == v * base + d.last() as nat);
        assert(v * base + d.last() < pp * base) by (nonlinear_arith)
            requires
                v < pp,
                (d.last() as nat) < base,
        ;
    }
}

/// Value of a concatenation.
pub proof fn lemma_value_concat(a: Seq<u8>, c: Seq<u8>, base: nat)
    ensures
        digits_value(a + c, base) == digits_value(a, base) * pow(base as int, c.len())
            + digits_value(c, base),
    decreases c.len(),
{
    reveal(pow);
    if c.len() == 0 {
        assert(a + c =~= a);
    } else {
        let c1 = c.drop_last();
        assert((a + c).drop_last() =~= a + c1);
        assert((a + c).last() == c.last());
        lemma_value_concat(a, c1, base);
        let va = digits_value(a, base);
        let vc = digits_value(c1, base);
        let p = pow(base as int, c1.len());
        lemma_pow_step(base, c1.len());
        assert((va * p + vc) * base + c.last() == va * (base * p) + (vc * base + c.last()))
            by (nonlinear_arith);
    }
}

/// A digit string is the fixed-width spelling of its own value.
pub proof fn lemma_fixed_of_value(d: Seq<u8>, base: nat)
    requires
        2 <= base <= 256,
        digits_below(d, base),
    ensures
        fixed_digits(digits_value(d, base), base, d.len()) == d,
    decreases d.len(),
{
    if d.len() > 0 {
        let p = d.drop_last();
        assert(digits_below(p, base)) by {
            assert forall|i: int| 0 <= i < p.len() implies (#[trigger] p[i] as nat) < base by {
                assert(p[i] == d[i]);
            }
        }
        lemma_fixed_of_value(p, base);
        let n = digits_value(d, base);
        assert((d.last() as nat) < base) by {
            assert((d[d.len() - 1] as nat) < base);
        }
        lemma_fundamental_div_mod_converse(
            n as int,
            base as int,
            digits_value(p, base) as int,
            d.last() as int,
        );
        assert(fixed_digits(n, base, d.len()) =~= d);
    }
}

pub proof fn lemma_zeros_value(count: nat, base: nat)
    ensures
        digits_value(zeros(count), base) == 0,
    decreases count,
{
    if count > 0 {
        assert(zeros(count).drop_last() =~= zeros((count - 1) as nat));
        assert(zeros(count).last() == 0);
        lemma_zeros_value((count - 1) as nat, base);
        assert(digits_value(zeros(count), base) == digits_value(zeros(count).drop_last(), base)
            * base + zeros(count).last() as nat);
    }
}

/// Leading zero digits do not change a value.
pub proof fn lemma_value_leading_zeros(count: nat, c: Seq<u8>, base: nat)
    ensures
        digits_value(zeros(count) + c, base) == digits_value(c, base),
{
    lemma_value_concat(zeros(count), c, base);
    lemma_zeros_value(count, base);
}

/// The minimal spelling: its value, its digits, and its leading digit.
pub proof fn lemma_min_value(n: nat, base: nat)
    requires
        2 <= base <= 256,
    ensures
        digits_value(min_digits(n, base), base) == n,
        digits_below(min_digits(n, base), base),
        min_digits(n, base).len() >= 1,
        (min_digits(n, base)[0] == 0) <==> (n == 0),
    decreases n,
{
    if n < base {
        let m = min_digits(n, base);
        assert(m == seq![n as u8]);
        assert(m.drop_last() =~= Seq::<u8>::empty());
        assert(digits_value(m.drop_last(), base) == 0);
        assert(m.last() as nat == n);
        assert(digits_value(m, base) == digits_value(m.drop_last(), base) * base + m.last() as nat);
    } else {
        lemma_div_decreases(n as int, base as int);
        lemma_div_pos_is_pos(n as int, base as int);
        lemma_min_value(n / base, base);
        lemma_mod_bound(n as int, base as int);
        lemma_fundamental_div_mod(n as int, base as int);
        let m = min_digits(n, base);
        let g = min_digits(n / base, base);
        assert(m.drop_last() =~= g);
        assert(m[0] == g[0]);
        assert forall|i: int| 0 <= i < m.len() implies (#[trigger] m[i] as nat) < base by {
            if i < g.len() {
                assert(m[i] == g[i]);
            }
        }
        assert(n == base * (n / base) + n % base);
        assert(n / base > 0);
        assert(m == g.push((n % base) as u8));
        assert(m.last() as nat == n % base);
        assert(digits_value(m, base) == digits_value(g, base) * base + n % base);
        assert((n / base) * base == base * (n / base)) by (nonlinear_arith);
    }
}

/// The minimal spelling fits in `k` digits exactly when `n < base^k`.
pub proof fn lemma_min_len(n: nat, base: nat, k: nat)
    requires
        2 <= base <= 256,
        k >= 1,
    ensures
        (min_digits(n, base).len() <= k) <==> (n < pow(base as int, k)),
    decreases n,
{
    reveal(pow);
    lemma_pow_step(base, (k - 1) as nat);
    lemma_pow_positive(base as int, (k - 1) as nat);
    if n < base {
        assert(min_digits(n, base).len() == 1);
        assert(base * pow(base as int, (k - 1) as nat) >= base) by (nonlinear_arith)
            requires
                pow(base as int, (k - 1) as nat) >= 1,
                base >= 2,
        ;
    } else {
        lemma_div_decreases(n as int, base as int);
        lemma_div_pos_is_pos(n as int, base as int);
        lemma_fundamental_div_mod(n as int, base as int);
        lemma_mod_bound(n as int, base as int);
        lemma_min_value(n / base, base);
        assert(min_digits(n, base).len() == min_digits(n / base, base).len() + 1);
        let p = pow(base as int, (k - 1) as nat);
        if k == 1 {
            assert(pow(base as int, 0) == 1);
        } else {
            lemma_min_len(n / base, base, (k - 1) as nat);
            let q = n / base;
            let r = n % base;
            assert((q < p) <==> (base * q + r < base * p)) by (nonlinear_arith)
                requires
                    0 <= r < base,
                    base >= 2,
            ;
        }
    }
}

/// A digit string with no leading zero digit is the minimal spelling of
/// its own value.
pub proof fn lemma_min_of_value(d: Seq<u8>, base: nat)
    requires
        2 <= base <= 256,
        digits_below(d, base),
        d.len() >= 1,
        d.len() == 1 || d[0] != 0,
    ensures
        min_digits(digits_value(d, base), base) == d,
    decreases d.len(),
{
    reveal(pow);
    if d.len() == 1 {
        assert(d.drop_last() =~= Seq::<u8>::empty());
        assert(digits_value(d.drop_last(), base) == 0);
        assert((d[0] as nat) < base);
        assert(d.last() == d[0]);
        assert(digits_value(d, base) == digits_value(d.drop_last(), base) * base + d.last() as nat);
        assert(digits_value(d, base) == d[0] as nat);
        assert(min_digits(d[0] as nat, base) == seq![d[0]]);
        assert(min_digits(digits_value(d, base), base) =~= d);
    } else {
        let p = d.drop_last();
        assert(digits_below(p, base)) by {
            assert forall|i: int| 0 <= i < p.len() implies (#[trigger] p[i] as nat) < base by {
                assert(p[i] == d[i]);
            }
        }
        assert(p[0] == d[0]);
        lemma_min_of_value(p, base);
        let n = digits_value(d, base);
        let vp = digits_value(p, base);
        assert((d.last() as nat) < base) by {
            assert((d[d.len() - 1] as nat) < base);
        }
        // The leading digit is non-zero, so the prefix is worth at least 1.
        let first = seq![d[0]];
        let rest = p.subrange(1, p.len() as int);
        assert(p =~= first + rest);
        lemma_value_concat(first, rest, base);
        assert(first.drop_last() =~= Seq::<u8>::empty());
        assert(digits_value(first.drop_last(), base) == 0);
        assert(digits_value(first, base) == d[0] as nat);
        lemma_pow_positive(base as int, rest.len());
        assert(vp >= 1) by (nonlinear_arith)
            requires
                vp == (d[0] as nat) * pow(base as int, rest.len()) + digits_value(rest, base),
                d[0] as nat >= 1,
                pow(base as int, rest.len()) >= 1,
        ;
        assert(n >= base) by (nonlinear_arith)
            requires
                n == vp * base + d.last() as nat,
                vp >= 1,
        ;
        lemma_fundamental_div_mod_converse(n as int, base as int, vp as int, d.last() as int);
        assert(min_digits(n, base) =~= d);
    }
}

/// The fixed-width spelling of a number below `base^w`, with its leading
/// zero digits, is the minimal spelling padded with zeros.
pub proof fn lemma_fixed_is_padded_min(n: nat, base: nat, width: nat)
    requires
        2 <= base <= 256,
        n < pow(base as int, width),
        min_digits(n, base).len() <= width,
    ensures
        fixed_digits(n, base, width) == zeros((width - min_digits(n, base).len()) as nat)
            + min_digits(n, base),
{
    let m = min_digits(n, base);
    lemma_min_value(n, base);
    let z = zeros((width - m.len()) as nat);
    let d = z + m;
    assert(digits_below(d, base)) by {
        assert forall|i: int| 0 <= i < d.len() implies (#[trigger] d[i] as nat) < base by {
            if i >= z.len() {
                assert(d[i] == m[i - z.len()]);
            }
        }
    }
    lemma_value_leading_zeros((width - m.len()) as nat, m, base);
    lemma_fixed_of_value(d, base);
}

/// The powers of 256 that byte buffers of UUID size reach.
pub proof fn lemma_pow256_values()
    ensures
        pow(256, 7) == 0x100_0000_0000_0000,
        pow(256, 9) == 0x100_0000_0000_0000_0000,
        pow(256, 15) == 0x100_0000_0000_0000_0000_0000_0000_0000,
        pow(256, 16) == 0x1_0000_0000_0000_0000_0000_0000_0000_0000,
        pow(256, 17) == 0x1_0000_0000_0000_0000_0000_0000_0000_0000_00,
{
    reveal(pow);
    assert(pow(256, 0) == 1);
    assert(pow(256, 1) == 0x100);
    assert(pow(256, 2) == 0x1_0000);
    assert(pow(256, 3) == 0x100_0000);
    assert(pow(256, 4) == 0x1_0000_0000);
    assert(pow(256, 5) == 0x100_0000_0000);
    assert(pow(256, 6) == 0x1_0000_0000_0000);
    assert(pow(256, 7) == 0x100_0000_0000_0000);
    assert(pow(256, 8) == 0x1_0000_0000_0000_0000);
    assert(pow(256, 9) == 0x100_0000_0000_0000_0000);
    assert(pow(256, 10) == 0x1_0000_0000_0000_0000_0000);
    assert(pow(256, 11) == 0x100_0000_0000_0000_0000_0000);
    assert(pow(256, 12) == 0x1_0000_0000_0000_0000_0000_0000);
    assert(pow(256, 13) == 0x100_0000_0000_0000_0000_0000_0000);
    assert(pow(256, 14) == 0x1_0000_0000_0000_0000_0000_0000_0000);
    assert(pow(256, 15) == 0x100_0000_0000_0000_0000_0000_0000_0000);
    assert(pow(256, 16) == 0x1_0000_0000_0000_0000_0000_0000_0000_0000);
    assert(pow(256, 17) == 0x100_0000_0000_0000_0000_0000_0000_0000_0000);
}

// ---------------------------------------------------------------------
// Executable arithmetic
// ---------------------------------------------------------------------

/// The `width` least significant base-`base` digits of `n`.
pub fn fixed_digits_of(n: u128, base: u128, width: usize) -> (r: Vec<u8>)
    requires
        2 <= base <= 256,
    ensures
        r@ == fixed_digits(n as nat, base as nat, width as nat),
{
    let mut r: Vec<u8> = vec![0u8; width];
    let mut cur = n;
    let mut i = width;
    proof {
        assert(r@.subrange(width as int, width as int) =~= Seq::<u8>::empty());
        assert(fixed_digits(n as nat, base as nat, width as nat) =~= fixed_digits(
            n as nat,
            base as nat,
            width as nat,
        ) + Seq::<u8>::empty());
    }
    while i > 0
        invariant
            i <= width,
            r.len() == width,
            2 <= base <= 256,
            fixed_digits(n as nat, base as nat, width as nat) =~= fixed_digits(
                cur as nat,
                base as nat,
                i as nat,
            ) + r@.subrange(i as int, width as int),
        decreases i,
    {
        let d = (cur % base) as u8;
        proof {
            lemma_mod_bound(cur as int, base as int);
        }
        let ghost old_r = r@;
        r.set(i - 1, d);
        proof {
            assert(r@.subrange((i - 1) as int, width as int) =~= seq![d] + old_r.subrange(
                i as int,
                width as int,
            ));
            assert(fixed_digits(cur as nat, base as nat, i as nat) =~= fixed_digits(
                (cur / base) as nat,
                base as nat,
                (i - 1) as nat,
            ).push(d));
        }
        cur = cur / base;
        i = i - 1;
    }
    proof {
        assert(r@.subrange(0, width as int) =~= r@);
    }
    r
}

/// Big-endian value of at most 16 bytes.
pub fn bytes_value(bytes: &[u8]) -> (r: u128)
    requires
        bytes@.len() <= 16,
    ensures
        r as nat == digits_value(bytes@, 256),
{
    let mut r: u128 = 0;
    let mut i: usize = 0;
    while i < bytes.len()
        invariant
            i <= bytes@.len() <= 16,
            r as nat == digits_value(bytes@.take(i as int), 256),
        decreases bytes@.len() - i,
    {
        proof {
            let t = bytes@.take((i + 1) as int);
            assert(t.drop_last() =~= bytes@.take(i as int));
            assert(digits_below(bytes@.take(i as int), 256));
            lemma_value_bound(bytes@.take(i as int), 256);
            lemma_pow_increases(256, i as nat, 15);
            lemma_pow256_values();
            assert((r as nat) * 256 + bytes[i as int] as nat <= 0xffff_ffff_ffff_ffff_ffff_ffff_ffff_ffff)
                by (nonlinear_arith)
                requires
                    r < 0x100_0000_0000_0000_0000_0000_0000_0000,
            ;
        }
        r = r * 256 + bytes[i] as u128;
        i = i + 1;
    }
    proof {
        assert(bytes@.take(i as int) =~= bytes@);
    }
    r
}

/// A prefix is worth no more than the whole digit string.
pub proof fn lemma_prefix_value_le(d: Seq<u8>, i: int, base: nat)
    requires
        0 <= i <= d.len(),
        base >= 1,
    ensures
        digits_value(d.take(i), base) <= digits_value(d, base),
{
    let rest = d.skip(i);
    assert(d =~= d.take(i) + rest);
    lemma_value_concat(d.take(i), rest, base);
    lemma_pow_positive(base as int, rest.len());
    let a = digits_value(d.take(i), base);
    assert(a * pow(base as int, rest.len()) >= a) by (nonlinear_arith)
        requires
            pow(base as int, rest.len()) >= 1,
    ;
}

/// The value of a digit string known to fit in 128 bits.
pub fn digits_to_u128(d: &Vec<u8>, base: u128) -> (r: u128)
    requires
        2 <= base <= 256,
        digits_value(d@, base as nat) <= u128::MAX,
    ensures
        r as nat == digits_value(d@, base as nat),
{
    let mut r: u128 = 0;
    let mut i: usize = 0;
    while i < d.len()
        invariant
            i <= d.len(),
            2 <= base <= 256,
            digits_value(d@, base as nat) <= u128::MAX,
            r as nat == digits_value(d@.take(i as int), base as nat),
        decreases d.len() - i,
    {
        proof {
            let t = d@.take((i + 1) as int);
            assert(t.drop_last() =~= d@.take(i as int));
            lemma_prefix_value_le(d@, (i + 1) as int, base as nat);
            assert(digits_value(t, base as nat) == (r as nat) * (base as nat) + d@[i as int] as nat);
        }
        r = r * base + d[i] as u128;
        i = i + 1;
    }
    assert(d@.take(d.len() as int) =~= d@);
    r
}

/// Appends `src[lo..hi]` to `out`.
pub fn append_range(out: &mut Vec<u8>, src: &[u8], lo: usize, hi: usize)
    requires
        lo <= hi <= src@.len(),
    ensures
        final(out)@ == old(out)@ + src@.subrange(lo as int, hi as int),
{
    let ghost start = out@;
    let mut i = lo;
    while i < hi
        invariant
            lo <= i <= hi <= src@.len(),
            out@ == start + src@.subrange(lo as int, i as int),
        decreases hi - i,
    {
        out.push(src[i]);
        i = i + 1;
        assert(src@.subrange(lo as int, i as int) =~= src@.subrange(lo as int, (i - 1) as int).push(
            src@[i - 1],
        ));
    }
}

/// The powers of the integer-encoding bases that bound UUID-sized values.
pub proof fn lemma_base_powers()
    ensures
        pow(36, 25) == 808281277464764060643139600456536293376,
        pow(52, 23) == 2938169888454847603243483631603792478208,
        pow(58, 22) == 624332378391008467754527498760580235264,
        pow(58, 21) == 10764351351569111513009094806216900608,
        pow(62, 22) == 2707803647802660400290261537185326956544,
        pow(62, 21) == 43674252383913877424036476406214950912,
{
    reveal(pow);
    assert(pow(36, 0) == 1);
    assert(pow(36, 1) == 36);
    assert(pow(36, 2) == 1296);
    assert(pow(36, 3) == 46656);
    assert(pow(36, 4) == 1679616);
    assert(pow(36, 5) == 60466176);
    assert(pow(36, 6) == 2176782336);
    assert(pow(36, 7) == 78364164096);
    assert(pow(36, 8) == 2821109907456);
    assert(pow(36, 9) == 101559956668416);
    assert(pow(36, 10) == 3656158440062976);
    assert(pow(36, 11) == 131621703842267136);
    assert(pow(36, 12) == 4738381338321616896);
    assert(pow(36, 13) == 170581728179578208256);
    assert(pow(36, 14) == 6140942214464815497216);
    assert(pow(36, 15) == 221073919720733357899776);
    assert(pow(36, 16) == 7958661109946400884391936);
    assert(pow(36, 17) == 286511799958070431838109696);
    assert(pow(36, 18) == 10314424798490535546171949056);
    assert(pow(36, 19) == 371319292745659279662190166016);
    assert(pow(36, 20) == 13367494538843734067838845976576);
    assert(pow(36, 21) == 481229803398374426442198455156736);
    assert(pow(36, 22) == 17324272922341479351919144385642496);
    assert(pow(36, 23) == 623673825204293256669089197883129856);
    assert(pow(36, 24) == 22452257707354557240087211123792674816);
    assert(pow(36, 25) == 808281277464764060643139600456536293376);
    assert(pow(52, 0) == 1);
    assert(pow(52, 1) == 52);
    assert(pow(52, 2) == 2704);
    assert(pow(52, 3) == 140608);
    assert(pow(52, 4) == 7311616);
    assert(pow(52, 5) == 380204032);
    assert(pow(52, 6) == 19770609664);
    assert(pow(52, 7) == 1028071702528);
    assert(pow(52, 8) == 53459728531456);
    assert(pow(52, 9) == 2779905883635712);
    assert(pow(52, 10) == 144555105949057024);
    assert(pow(52, 11) == 7516865509350965248);
    assert(pow(52, 12) == 390877006486250192896);
    assert(pow(52, 13) == 20325604337285010030592);
    assert(pow(52, 14) == 1056931425538820521590784);
    assert(pow(52, 15) == 54960434128018667122720768);
    assert(pow(52, 16) == 2857942574656970690381479936);
    assert(pow(52, 17) == 148613013882162475899836956672);
    assert(pow(52, 18) == 7727876721872448746791521746944);
    assert(pow(52, 19) == 401849589537367334833159130841088);
    assert(pow(52, 20) == 20896178655943101411324274803736576);
    assert(pow(52, 21) == 1086601290109041273388862289794301952);
    assert(pow(52, 22) == 56503267085670146216220839069303701504);
    assert(pow(52, 23) == 2938169888454847603243483631603792478208);
    assert(pow(58, 0) == 1);
    assert(pow(58, 1) == 58);
    assert(pow(58, 2) == 3364);
    assert(pow(58, 3) == 195112);
    assert(pow(58, 4) == 11316496);
    assert(pow(58, 5) == 656356768);
    assert(pow(58, 6) == 38068692544);
    assert(pow(58, 7) == 2207984167552);
    assert(pow(58, 8) == 128063081718016);
    assert(pow(58, 9) == 7427658739644928);
    assert(pow(58, 10) == 430804206899405824);
    assert(pow(58, 11) == 24986644000165537792);
    assert(pow(58, 12) == 1449225352009601191936);
    assert(pow(58, 13) == 84055070416556869132288);
    assert(pow(58, 14) == 4875194084160298409672704);
    assert(pow(58, 15) == 282761256881297307761016832);
    assert(pow(58, 16) == 16400152899115243850138976256);
    assert(pow(58, 17) == 951208868148684143308060622848);
    assert(pow(58, 18) == 55170114352623680311867516125184);
    assert(pow(58, 19) == 3199866632452173458088315935260672);
    assert(pow(58, 20) == 185592264682226060569122324245118976);
    assert(pow(58, 21) == 10764351351569111513009094806216900608);
    assert(pow(58, 22) == 624332378391008467754527498760580235264);
    assert(pow(62, 0) == 1);
    assert(pow(62, 1) == 62);
    assert(pow(62, 2) == 3844);
    assert(pow(62, 3) == 238328);
    assert(pow(62, 4) == 14776336);
    assert(pow(62, 5) == 916132832);
    assert(pow(62, 6) == 56800235584);
    assert(pow(62, 7) == 3521614606208);
    assert(pow(62, 8) == 218340105584896);
    assert(pow(62, 9) == 13537086546263552);
    assert(pow(62, 10) == 839299365868340224);
    assert(pow(62, 11) == 52036560683837093888);
    assert(pow(62, 12) == 3226266762397899821056);
    assert(pow(62, 13) == 200028539268669788905472);
    assert(pow(62, 14) == 12401769434657526912139264);
    assert(pow(62, 15) == 768909704948766668552634368);
    assert(pow(62, 16) == 47672401706823533450263330816);
    assert(pow(62, 17) == 2955688905823059073916326510592);
    assert(pow(62, 18) == 183252712161029662582812243656704);
    assert(pow(62, 19) == 11361668153983839080134359106715648);
    assert(pow(62, 20) == 704423425546998022968330264616370176);
    assert(pow(62, 21) == 43674252383913877424036476406214950912);
    assert(pow(62, 22) == 2707803647802660400290261537185326956544);
}

/// Powers of 58 up to `58^21`.
pub proof fn lemma_pow58_values()
    ensures
        pow(58, 0) == 1,
        pow(58, 1) == 58,
        pow(58, 2) == 3364,
        pow(58, 3) == 195112,
        pow(58, 4) == 11316496,
        pow(58, 5) == 656356768,
        pow(58, 6) == 38068692544,
        pow(58, 7) == 2207984167552,
        pow(58, 8) == 128063081718016,
        pow(58, 9) == 7427658739644928,
        pow(58, 10) == 430804206899405824,
        pow(58, 11) == 24986644000165537792,
        pow(58, 12) == 1449225352009601191936,
        pow(58, 13) == 84055070416556869132288,
        pow(58, 14) == 4875194084160298409672704,
        pow(58, 15) == 282761256881297307761016832,
        pow(58, 16) == 16400152899115243850138976256,
        pow(58, 17) == 951208868148684143308060622848,
        pow(58, 18) == 55170114352623680311867516125184,
        pow(58, 19) == 3199866632452173458088315935260672,
        pow(58, 20) == 185592264682226060569122324245118976,
        pow(58, 21) == 10764351351569111513009094806216900608,
{
    reveal(pow);
    assert(pow(58, 0) == 1);
    assert(pow(58, 1) == 58);
    assert(pow(58, 2) == 3364);
    assert(pow(58, 3) == 195112);
    assert(pow(58, 4) == 11316496);
    assert(pow(58, 5) == 656356768);
    assert(pow(58, 6) == 38068692544);
    assert(pow(58, 7) == 2207984167552);
    assert(pow(58, 8) == 128063081718016);
    assert(pow(58, 9) == 7427658739644928);
    assert(pow(58, 10) == 430804206899405824);
    assert(pow(58, 11) == 24986644000165537792);
    assert(pow(58, 12) == 1449225352009601191936);
    assert(pow(58, 13) == 84055070416556869132288);
    assert(pow(58, 14) == 4875194084160298409672704);
    assert(pow(58, 15) == 282761256881297307761016832);
    assert(pow(58, 16) == 16400152899115243850138976256);
    assert(pow(58, 17) == 951208868148684143308060622848);
    assert(pow(58, 18) == 55170114352623680311867516125184);
    assert(pow(58, 19) == 3199866632452173458088315935260672);
    assert(pow(58, 20) == 185592264682226060569122324245118976);
    assert(pow(58, 21) == 10764351351569111513009094806216900608);
}

/// The powers of 32 and 64 behind the Base32 and Base64 widths.
pub proof fn lemma_bit_powers()
    ensures
        pow(32, 25) * 8 == 0x1_0000_0000_0000_0000_0000_0000_0000_0000,
        pow(64, 21) * 4 == 0x1_0000_0000_0000_0000_0000_0000_0000_0000,
        pow(32, 24) == 0x100_0000_0000_0000_0000_0000_0000_0000,
        pow(64, 20) == 0x100_0000_0000_0000_0000_0000_0000_0000,
{
    reveal(pow);
    assert(pow(32, 0) == 1);
    assert(pow(32, 1) == 32);
    assert(pow(32, 2) == 1024);
    assert(pow(32, 3) == 32768);
    assert(pow(32, 4) == 1048576);
    assert(pow(32, 5) == 33554432);
    assert(pow(32, 6) == 1073741824);
    assert(pow(32, 7) == 34359738368);
    assert(pow(32, 8) == 1099511627776);
    assert(pow(32, 9) == 35184372088832);
    assert(pow(32, 10) == 1125899906842624);
    assert(pow(32, 11) == 36028797018963968);
    assert(pow(32, 12) == 1152921504606846976);
    assert(pow(32, 13) == 36893488147419103232);
    assert(pow(32, 14) == 1180591620717411303424);
    assert(pow(32, 15) == 37778931862957161709568);
    assert(pow(32, 16) == 1208925819614629174706176);
    assert(pow(32, 17) == 38685626227668133590597632);
    assert(pow(32, 18) == 1237940039285380274899124224);
    assert(pow(32, 19) == 39614081257132168796771975168);
    assert(pow(32, 20) == 1267650600228229401496703205376);
    assert(pow(32, 21) == 40564819207303340847894502572032);
    assert(pow(32, 22) == 1298074214633706907132624082305024);
    assert(pow(32, 23) == 41538374868278621028243970633760768);
    assert(pow(32, 24) == 1329227995784915872903807060280344576);
    assert(pow(32, 25) == 42535295865117307932921825928971026432);
    assert(pow(64, 0) == 1);
    assert(pow(64, 1) == 64);
    assert(pow(64, 2) == 4096);
    assert(pow(64, 3) == 262144);
    assert(pow(64, 4) == 16777216);
    assert(pow(64, 5) == 1073741824);
    assert(pow(64, 6) == 68719476736);
    assert(pow(64, 7) == 4398046511104);
    assert(pow(64, 8) == 281474976710656);
    assert(pow(64, 9) == 18014398509481984);
    assert(pow(64, 10) == 1152921504606846976);
    assert(pow(64, 11) == 73786976294838206464);
    assert(pow(64, 12) == 4722366482869645213696);
    assert(pow(64, 13) == 302231454903657293676544);
    assert(pow(64, 14) == 19342813113834066795298816);
    assert(pow(64, 15) == 1237940039285380274899124224);
    assert(pow(64, 16) == 79228162514264337593543950336);
    assert(pow(64, 17) == 5070602400912917605986812821504);
    assert(pow(64, 18) == 324518553658426726783156020576256);
    assert(pow(64, 19) == 20769187434139310514121985316880384);
    assert(pow(64, 20) == 1329227995784915872903807060280344576);
    assert(pow(64, 21) == 85070591730234615865843651857942052864);
}

} // verus!
