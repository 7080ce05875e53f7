//! UUID-NCName encodings (`draft-taylor-uuid-ncname-04`, referenced from
//! Appendix C of `draft-davis`). Three variants — Base32, Base58,
//! Base64url — each prefixed and (for Base32/Base64) suffixed by a
//! "bookend" character that encodes the UUID version and variant nibble.
//!
//! Each variant has a single canonical form per UUID:
//!
//!   * UUID-NCName-32  → 26 characters, fully **lowercase** (bookends `a`–`p`).
//!   * UUID-NCName-58  → 23 characters, **uppercase** bookends, mixed-case body.
//!   * UUID-NCName-64  → 22 characters, **uppercase** bookends, mixed-case body.
//!
//! Decoders reject any input that is not already in its canonical form,
//! so two distinct strings never decode to the same UUID.
//!
//! In numbers: the version nibble (bits 76..80 of the 128-bit value) and
//! the variant nibble (bits 60..64) are taken out, and the remaining 120
//! bits, packed in order, form the *body* that the middle characters
//! spell.

use vstd::prelude::*;

use crate::alphabets::{
    is_upper, lemma_read_digits_exact, read_digits, read_digits_of, spell, spell_digits, to_lower,
    Alphabet,
};
use crate::digits::{
    bytes_value, digits_below, digits_to_u128, digits_value, fixed_digits, fixed_digits_of, lemma_fixed_below,
    lemma_value_bound, min_digits, zeros,
};
use crate::error::DecodeError;
use crate::integer_base::{
    decode_integer_padded, encode_integer_padded, integer_digits, leading_run,
    lemma_leading_run_props, read_integer_padded,
};
use crate::text::{all_ascii, ascii_text, lemma_ascii_utf8, string_from_ascii};
use vstd::utf8::encode_utf8;
use crate::{lemma_uuid_wf, uuid_limit, Uuid};
use vstd::arithmetic::div_mod::{
    lemma_fundamental_div_mod, lemma_fundamental_div_mod_converse, lemma_mod_bound,
};
use vstd::arithmetic::power::pow;
use vstd::string::StringSliceAdditionalSpecFns;

verus! {

/// 2^60.
pub open spec fn p60() -> nat {
    0x1000_0000_0000_0000
}

/// 2^64.
pub open spec fn p64() -> nat {
    0x1_0000_0000_0000_0000
}

/// 2^72.
pub open spec fn p72() -> nat {
    0x100_0000_0000_0000_0000
}

/// 2^76.
pub open spec fn p76() -> nat {
    0x1000_0000_0000_0000_0000
}

/// 2^80.
pub open spec fn p80() -> nat {
    0x1_0000_0000_0000_0000_0000
}

/// 2^120: one more than the largest body.
pub open spec fn body_limit() -> nat {
    0x100_0000_0000_0000_0000_0000_0000_0000
}

/// The version nibble of a UUID value: bits 76..80 (high half of byte 6).
pub open spec fn nc_version(n: nat) -> nat {
    (n / p76()) % 16
}

/// The variant nibble of a UUID value: bits 60..64 (high half of byte 8).
pub open spec fn nc_variant(n: nat) -> nat {
    (n / p60()) % 16
}

/// The 120 bits left when both nibbles are taken out, packed in order.
pub open spec fn nc_body(n: nat) -> nat {
    (n / p80()) * p72() + ((n / p64()) % 4096) * p60() + n % p60()
}

/// The UUID value with version `v` and variant nibble `vn` put back into
/// the body `b`.
pub open spec fn nc_compose(v: nat, vn: nat, b: nat) -> nat {
    (b / p72()) * p80() + v * p76() + ((b / p60()) % 4096) * p64() + vn * p60() + b % p60()
}

/// The five fields of a value written as `a | v | c | vn | d` with widths
/// 48, 4, 12, 4 and 60 bits are read back by the field functions.
proof fn lemma_fields_of(a: nat, v: nat, c: nat, vn: nat, d: nat)
    requires
        v < 16,
        c < 4096,
        vn < 16,
        d < p60(),
    ensures
        ({
            let n = a * p80() + v * p76() + c * p64() + vn * p60() + d;
            &&& n / p80() == a
            &&& nc_version(n) == v
            &&& (n / p64()) % 4096 == c
            &&& nc_variant(n) == vn
            &&& n % p60() == d
        }),
{
    let n = a * p80() + v * p76() + c * p64() + vn * p60() + d;
    let q3 = a * 16 + v;
    let q2 = q3 * 4096 + c;
    let q1 = q2 * 16 + vn;
    assert(n == q1 * p60() + d);
    lemma_fundamental_div_mod_converse(n as int, p60() as int, q1 as int, d as int);
    lemma_fundamental_div_mod_converse(q1 as int, 16, q2 as int, vn as int);
    lemma_fundamental_div_mod_converse(q2 as int, 4096, q3 as int, c as int);
    lemma_fundamental_div_mod_converse(q3 as int, 16, a as int, v as int);
    assert(n == q2 * p64() + (vn * p60() + d));
    lemma_fundamental_div_mod_converse(n as int, p64() as int, q2 as int, (vn * p60() + d) as int);
    assert(n == q3 * p76() + (c * p64() + vn * p60() + d));
    lemma_fundamental_div_mod_converse(
        n as int,
        p76() as int,
        q3 as int,
        (c * p64() + vn * p60() + d) as int,
    );
    assert(n == a * p80() + (v * p76() + c * p64() + vn * p60() + d));
    lemma_fundamental_div_mod_converse(
        n as int,
        p80() as int,
        a as int,
        (v * p76() + c * p64() + vn * p60() + d) as int,
    );
}

/// Every value below 2^128 is written `a | v | c | vn | d` by its fields.
proof fn lemma_fields_split(n: nat)
    requires
        n < uuid_limit(),
    ensures
        n == (n / p80()) * p80() + nc_version(n) * p76() + ((n / p64()) % 4096) * p64()
            + nc_variant(n) * p60() + n % p60(),
        n / p80() < 0x1_0000_0000_0000,
{
    lemma_fundamental_div_mod(n as int, p60() as int);
    let q1 = n / p60();
    lemma_fundamental_div_mod(q1 as int, 16);
    let q2 = q1 / 16;
    lemma_fundamental_div_mod(q2 as int, 4096);
    let q3 = q2 / 4096;
    lemma_fundamental_div_mod(q3 as int, 16);
    let a = q3 / 16;
    lemma_mod_bound(n as int, p60() as int);
    lemma_mod_bound(q1 as int, 16);
    lemma_mod_bound(q2 as int, 4096);
    lemma_mod_bound(q3 as int, 16);
    assert(n == a * p80() + (q3 % 16) * p76() + (q2 % 4096) * p64() + (q1 % 16) * p60() + n % p60());
    lemma_fields_of(a, q3 % 16, q2 % 4096, q1 % 16, n % p60());
    assert(a < 0x1_0000_0000_0000);
}

/// A body `b < 2^120` is written `a | c | d` with widths 48, 12, 60.
proof fn lemma_body_fields(a: nat, c: nat, d: nat)
    requires
        c < 4096,
        d < p60(),
    ensures
        ({
            let b = a * p72() + c * p60() + d;
            &&& b / p72() == a
            &&& (b / p60()) % 4096 == c
            &&& b % p60() == d
        }),
{
    let b = a * p72() + c * p60() + d;
    let q = a * 4096 + c;
    assert(b == q * p60() + d);
    lemma_fundamental_div_mod_converse(b as int, p60() as int, q as int, d as int);
    lemma_fundamental_div_mod_converse(q as int, 4096, a as int, c as int);
    assert(b == a * p72() + (c * p60() + d));
    lemma_fundamental_div_mod_converse(b as int, p72() as int, a as int, (c * p60() + d) as int);
}

/// Taking the nibbles out of a UUID value and putting them back gives the
/// value again; the body fits in 120 bits and the nibbles in 4.
pub proof fn lemma_compose_split(n: nat)
    requires
        n < uuid_limit(),
    ensures
        nc_compose(nc_version(n), nc_variant(n), nc_body(n)) == n,
        nc_body(n) < body_limit(),
        nc_version(n) < 16,
        nc_variant(n) < 16,
{
    lemma_fields_split(n);
    let a = n / p80();
    let c = (n / p64()) % 4096;
    lemma_mod_bound((n / p64()) as int, 4096);
    lemma_mod_bound(n as int, p60() as int);
    lemma_mod_bound((n / p76()) as int, 16);
    lemma_mod_bound((n / p60()) as int, 16);
    lemma_body_fields(a, c, n % p60());
}

/// Putting a version, a variant nibble and a body together gives a UUID
/// value whose nibbles and body are those three.
pub proof fn lemma_split_compose(v: nat, vn: nat, b: nat)
    requires
        v < 16,
        vn < 16,
        b < body_limit(),
    ensures
        nc_version(nc_compose(v, vn, b)) == v,
        nc_variant(nc_compose(v, vn, b)) == vn,
        nc_body(nc_compose(v, vn, b)) == b,
        nc_compose(v, vn, b) < uuid_limit(),
{
    lemma_fundamental_div_mod(b as int, p60() as int);
    lemma_fundamental_div_mod((b / p60()) as int, 4096);
    lemma_mod_bound(b as int, p60() as int);
    lemma_mod_bound((b / p60()) as int, 4096);
    let a = (b / p60()) / 4096;
    let c = (b / p60()) % 4096;
    let d = b % p60();
    assert(b == a * p72() + c * p60() + d);
    lemma_body_fields(a, c, d);
    lemma_fields_of(a, v, c, vn, d);
    assert(a < 0x1_0000_0000_0000);
}

/// A UUID taken apart for the NCName encoders.
struct Shifted {
    version: u8,
    variant: u8,
    body: u128,
}

/// The version, the variant nibble and the 120-bit body of a UUID.
fn ncname_shifted(uuid: &Uuid) -> (s: Shifted)
    ensures
        s.version == nc_version(uuid.value()),
        s.variant == nc_variant(uuid.value()),
        s.body == nc_body(uuid.value()),
        s.version < 16,
        s.variant < 16,
        s.body < body_limit(),
{
    let n = uuid.to_u128();
    proof {
        lemma_uuid_wf(*uuid);
        lemma_compose_split(n as nat);
        lemma_fields_split(n as nat);
        lemma_mod_bound((n / 0x1_0000_0000_0000_0000u128) as int, 4096);
        lemma_mod_bound(n as int, p60() as int);
    }
    let version = ((n / 0x1000_0000_0000_0000_0000u128) % 16) as u8;
    let variant = ((n / 0x1000_0000_0000_0000u128) % 16) as u8;
    let body = (n / 0x1_0000_0000_0000_0000_0000u128) * 0x100_0000_0000_0000_0000u128 + ((n
        / 0x1_0000_0000_0000_0000u128) % 4096) * 0x1000_0000_0000_0000u128 + n
        % 0x1000_0000_0000_0000u128;
    Shifted { version, variant, body }
}

/// The UUID with version `version`, variant nibble `variant` and body
/// `body`.
fn ncname_unshift(version: u8, variant: u8, body: u128) -> (u: Uuid)
    requires
        version < 16,
        variant < 16,
        body < body_limit(),
    ensures
        u.value() == nc_compose(version as nat, variant as nat, body as nat),
{
    proof {
        lemma_split_compose(version as nat, variant as nat, body as nat);
        lemma_mod_bound((body / 0x1000_0000_0000_0000u128) as int, 4096);
        lemma_mod_bound(body as int, p60() as int);
    }
    let n = (body / 0x100_0000_0000_0000_0000u128) * 0x1_0000_0000_0000_0000_0000u128
        + (version as u128) * 0x1000_0000_0000_0000_0000u128 + ((body / 0x1000_0000_0000_0000u128)
        % 4096) * 0x1_0000_0000_0000_0000u128 + (variant as u128) * 0x1000_0000_0000_0000u128
        + body % 0x1000_0000_0000_0000u128;
    Uuid::from_u128(n)
}

/// The bookend symbol of a nibble: `A`–`P`.
pub open spec fn bookend_sym(x: nat) -> u8 {
    Alphabet::Base32Std.sym(x as u8)
}

/// ASCII lowercase of every byte.
pub open spec fn lowercase(s: Seq<u8>) -> Seq<u8> {
    s.map_values(|c: u8| to_lower(c))
}

/// `k` underscores.
pub open spec fn underscores(k: nat) -> Seq<u8> {
    Seq::new(k, |i: int| 0x5fu8)
}

/// UUID-NCName-32: the version bookend, the body in 24 Base32 symbols and
/// the variant bookend, all lowercase.
pub open spec fn spec_to_ncname_32(n: nat) -> Seq<u8> {
    lowercase(
        seq![bookend_sym(nc_version(n))] + spell(Alphabet::Base32Std, fixed_digits(nc_body(n), 32, 24))
            + seq![bookend_sym(nc_variant(n))],
    )
}

/// UUID-NCName-64: the version bookend, the body in 20 Base64url symbols
/// and the variant nibble as one Base64url symbol (`A`–`P`).
pub open spec fn spec_to_ncname_64(n: nat) -> Seq<u8> {
    seq![bookend_sym(nc_version(n))] + spell(Alphabet::Base64Url, fixed_digits(nc_body(n), 64, 20))
        + seq![Alphabet::Base64Url.sym(nc_variant(n) as u8)]
}

/// The Base58 digits of the body of UUID-NCName-58: the 15 body bytes
/// read as one integer, with one zero digit (`1`) per leading zero byte.
pub open spec fn nc58_digits(n: nat) -> Seq<u8> {
    integer_digits(fixed_digits(nc_body(n), 256, 15), 58, true)
}

/// UUID-NCName-58: the version bookend, the Base58 body padded with
/// underscores to 21 characters, and the variant bookend.
pub open spec fn spec_to_ncname_58(n: nat) -> Seq<u8> {
    let d = nc58_digits(n);
    seq![bookend_sym(nc_version(n))] + spell(Alphabet::Base58Btc, d) + underscores(
        (21 - d.len()) as nat,
    ) + seq![bookend_sym(nc_variant(n))]
}

/// `256^(15-k) <= 58^(21-k)`: a byte string with `k` leading zero bytes
/// out of 15 needs at most `21 - k` Base58 digits.
proof fn lemma_pow_256_58(k: nat)
    requires
        k <= 15,
    ensures
        pow(256, (15 - k) as nat) <= pow(58, (21 - k) as nat),
    decreases k,
{
    if k == 0 {
        crate::digits::lemma_pow256_values();
        crate::digits::lemma_pow58_values();
    } else {
        lemma_pow_256_58((k - 1) as nat);
        crate::digits::lemma_pow_step(256, (15 - k) as nat);
        crate::digits::lemma_pow_step(58, (21 - k) as nat);
        assert((15 - k) as nat + 1 == (16 - k) as nat);
        assert((21 - k) as nat + 1 == (22 - k) as nat);
        let x = pow(256, (15 - k) as nat);
        let y = pow(58, (21 - k) as nat);
        assert(x <= y) by (nonlinear_arith)
            requires
                256 * x <= 58 * y,
                x >= 0,
        ;
    }
}

/// The Base58 body of UUID-NCName-58 has at most 21 digits.
pub proof fn lemma_nc58_digits(b: nat)
    requires
        b < body_limit(),
    ensures
        integer_digits(fixed_digits(b, 256, 15), 58, true).len() <= 21,
        integer_digits(fixed_digits(b, 256, 15), 58, true).len() >= 1,
        digits_below(integer_digits(fixed_digits(b, 256, 15), 58, true), 58),
        b == 0 ==> integer_digits(fixed_digits(b, 256, 15), 58, true) == zeros(15),
        b > 0 ==> ({
            let lz = leading_run(fixed_digits(b, 256, 15), 0);
            &&& lz < 15
            &&& integer_digits(fixed_digits(b, 256, 15), 58, true) == zeros(lz) + min_digits(b, 58)
            &&& b < pow(256, (15 - lz) as nat)
        }),
{
    let data = fixed_digits(b, 256, 15);
    crate::digits::lemma_pow256_values();
    lemma_fixed_below(b, 256, 15);
    crate::digits::lemma_fixed_value(b, 256, 15);
    vstd::arithmetic::div_mod::lemma_small_mod(b, body_limit());
    assert(digits_value(data, 256) == b);
    let lz = leading_run(data, 0);
    lemma_leading_run_props(data, 0);
    let rest = data.skip(lz as int);
    assert(data =~= zeros(lz) + rest);
    crate::digits::lemma_value_leading_zeros(lz, rest, 256);
    assert(digits_below(rest, 256)) by {
        assert forall|i: int| 0 <= i < rest.len() implies (#[trigger] rest[i] as nat) < 256 by {
            assert(rest[i] == data[i + lz]);
        }
    }
    lemma_value_bound(rest, 256);
    let d = integer_digits(data, 58, true);
    if b == 0 {
        assert(lz == 15) by {
            if lz < 15 {
                crate::integer_base::lemma_value_zero(data, 256);
                assert(data[lz as int] == 0);
            }
        }
        assert(d =~= zeros(lz));
    } else {
        assert(lz < 15) by {
            if lz == 15 {
                assert(rest =~= Seq::<u8>::empty());
            }
        }
        lemma_pow_256_58(lz);
        crate::digits::lemma_min_len(b, 58, (21 - lz) as nat);
        crate::digits::lemma_min_value(b, 58);
        let m = min_digits(b, 58);
        assert(d =~= zeros(lz) + m);
        assert forall|i: int| 0 <= i < d.len() implies (#[trigger] d[i] as nat) < 58 by {
            if i >= lz {
                assert(d[i] == m[i - lz]);
            }
        }
    }
}

/// Lowercases the ASCII letters of `v`.
fn lowercase_bytes(v: &Vec<u8>) -> (r: Vec<u8>)
    requires
        all_ascii(v@),
    ensures
        r@ == lowercase(v@),
        all_ascii(r@),
{
    let mut r: Vec<u8> = Vec::new();
    let mut i: usize = 0;
    while i < v.len()
        invariant
            i <= v@.len(),
            all_ascii(v@),
            r@ =~= lowercase(v@.take(i as int)),
        decreases v@.len() - i,
    {
        let c = v[i];
        let l = if 0x41 <= c && c <= 0x5a {
            c + 0x20
        } else {
            c
        };
        r.push(l);
        i += 1;
        assert(v@.take(i as int) =~= v@.take((i - 1) as int).push(c));
    }
    assert(v@.take(v@.len() as int) =~= v@);
    assert forall|j: int| 0 <= j < r@.len() implies (#[trigger] r@[j]) < 0x80 by {
        assert(v@[j] < 0x80);
    }
    r
}

impl Uuid {
    /// 26-character UUID-NCName-32 (RFC 4648 Base32, lowercase). Best
    /// when the host grammar is case-insensitive.
    pub fn to_ncname_32(&self) -> (s: String)
        ensures
            s@ == ascii_text(spec_to_ncname_32(self.value())),
            s@.len() == 26,
    {
        let sh = ncname_shifted(self);
        let mut d = fixed_digits_of(sh.body, 32, 24);
        d.push(sh.variant);
        proof {
            lemma_fixed_below(sh.body as nat, 32, 24);
            assert(digits_below(d@, 32)) by {
                assert forall|i: int| 0 <= i < d@.len() implies (#[trigger] d@[i] as nat) < 32 by {
                    if i < 24 {
                        assert(d@[i] == fixed_digits(sh.body as nat, 32, 24)[i]);
                    }
                }
            }
        }
        let body = spell_digits(Alphabet::Base32Std, &d);
        let mut out: Vec<u8> = Vec::new();
        out.push(Alphabet::Base32Std.symbol(sh.version));
        crate::digits::append_range(&mut out, body.as_slice(), 0, 25);
        proof {
            crate::alphabets::lemma_sym_val(Alphabet::Base32Std, sh.version);
            let f = fixed_digits(sh.body as nat, 32, 24);
            assert(d@ =~= f.push(sh.variant));
            assert(body@.subrange(0, 25) =~= body@);
            assert(out@ =~= seq![bookend_sym(sh.version as nat)] + spell(Alphabet::Base32Std, f)
                + seq![bookend_sym(sh.variant as nat)]);
            assert forall|j: int| 0 <= j < out@.len() implies (#[trigger] out@[j]) < 0x80 by {
                if j > 0 {
                    assert(out@[j] == body@[j - 1]);
                }
            }
        }
        let lower = lowercase_bytes(&out);
        string_from_ascii(lower)
    }

    /// 22-character UUID-NCName-64 (Base64url body, `A`–`P` bookends).
    /// Most compact form usable as an XML/HTML id.
    pub fn to_ncname_64(&self) -> (s: String)
        ensures
            s@ == ascii_text(spec_to_ncname_64(self.value())),
            s@.len() == 22,
    {
        let sh = ncname_shifted(self);
        let mut d = fixed_digits_of(sh.body, 64, 20);
        d.push(sh.variant);
        proof {
            lemma_fixed_below(sh.body as nat, 64, 20);
            assert(digits_below(d@, 64)) by {
                assert forall|i: int| 0 <= i < d@.len() implies (#[trigger] d@[i] as nat) < 64 by {
                    if i < 20 {
                        assert(d@[i] == fixed_digits(sh.body as nat, 64, 20)[i]);
                    }
                }
            }
        }
        let body = spell_digits(Alphabet::Base64Url, &d);
        let mut out: Vec<u8> = Vec::new();
        out.push(Alphabet::Base32Std.symbol(sh.version));
        crate::digits::append_range(&mut out, body.as_slice(), 0, 21);
        proof {
            crate::alphabets::lemma_sym_val(Alphabet::Base32Std, sh.version);
            let f = fixed_digits(sh.body as nat, 64, 20);
            assert(d@ =~= f.push(sh.variant));
            assert(body@.subrange(0, 21) =~= body@);
            assert(out@ =~= seq![bookend_sym(sh.version as nat)] + spell(Alphabet::Base64Url, f)
                + seq![Alphabet::Base64Url.sym(sh.variant)]);
            assert forall|j: int| 0 <= j < out@.len() implies (#[trigger] out@[j]) < 0x80 by {
                if j > 0 {
                    assert(out@[j] == body@[j - 1]);
                }
            }
        }
        string_from_ascii(out)
    }

    /// 23-character UUID-NCName-58. Mixed case; readable when transcribed.
    pub fn to_ncname_58(&self) -> (s: String)
        ensures
            s@ == ascii_text(spec_to_ncname_58(self.value())),
            s@.len() == 23,
    {
        let out = ncname_58_bytes(self);
        string_from_ascii(out)
    }
}

/// The bytes of the UUID-NCName-58 spelling of `uuid`.
fn ncname_58_bytes(uuid: &Uuid) -> (out: Vec<u8>)
    ensures
        out@ == spec_to_ncname_58(uuid.value()),
        out@.len() == 23,
        all_ascii(out@),
{
    let sh = ncname_shifted(uuid);
    let data = fixed_digits_of(sh.body, 256, 15);
    let d = encode_integer_padded(data.as_slice(), 58, true);
    proof {
        lemma_nc58_digits(sh.body as nat);
    }
    let body = spell_digits(Alphabet::Base58Btc, &d);
    let mut out: Vec<u8> = Vec::new();
    out.push(Alphabet::Base32Std.symbol(sh.version));
    crate::digits::append_range(&mut out, body.as_slice(), 0, body.len());
    let ghost head = out@;
    while out.len() < 22
        invariant
            head.len() <= out@.len() <= 22,
            out@ =~= head + underscores((out@.len() - head.len()) as nat),
        decreases 22 - out@.len(),
    {
        out.push(0x5f);
    }
    out.push(Alphabet::Base32Std.symbol(sh.variant));
    proof {
        let n = uuid.value();
        crate::alphabets::lemma_sym_val(Alphabet::Base32Std, sh.version);
        crate::alphabets::lemma_sym_val(Alphabet::Base32Std, sh.variant);
        crate::alphabets::lemma_spell_ascii(Alphabet::Base58Btc, d@);
        assert(body@.subrange(0, body@.len() as int) =~= body@);
        assert(head.len() == 1 + d@.len());
        assert(out@ =~= spec_to_ncname_58(n));
        assert forall|j: int| 0 <= j < out@.len() implies (#[trigger] out@[j]) < 0x80 by {
            if 1 <= j < head.len() {
                assert(out@[j] == body@[j - 1]);
            }
        }
    }
    out
}

/// The error for a bookend outside `A`–`P` (or `a`–`p` for NCName-32).
pub open spec fn bookend_error(enc: &'static str) -> DecodeError {
    DecodeError::SchemeViolation {
        encoding: enc,
        reason: "version/variant bookend must be in A–P (case must match canonical form)",
    }
}

/// The error for a last character that carries bits the encoder never
/// sets.
pub open spec fn last_char_error(enc: &'static str) -> DecodeError {
    DecodeError::SchemeViolation { encoding: enc, reason: "last character must be A–P (canonical form)" }
}

/// The nibble of an uppercase bookend `A`–`P`.
pub open spec fn bookend_upper(c: u8) -> Option<u8> {
    if 0x41 <= c <= 0x50 {
        Some((c - 0x41) as u8)
    } else {
        None
    }
}

/// The nibble of a lowercase bookend `a`–`p`.
pub open spec fn bookend_lower(c: u8) -> Option<u8> {
    if 0x61 <= c <= 0x70 {
        Some((c - 0x61) as u8)
    } else {
        None
    }
}

/// Length of the run of bytes that are not uppercase letters at the start
/// of `s`.
pub open spec fn caseless_run(s: Seq<u8>) -> nat
    decreases s.len(),
{
    if s.len() == 0 || is_upper(s[0]) {
        0
    } else {
        1 + caseless_run(s.drop_first())
    }
}

/// UUID-NCName-32 decoding: length 26; no uppercase letter (the first is
/// reported); a lowercase version bookend; a last character worth less
/// than 16; 24 Base32 symbols of body (errors at their input index).
pub open spec fn spec_from_ncname_32(s: Seq<u8>) -> Result<nat, DecodeError> {
    if s.len() != 26 {
        Err(DecodeError::InvalidLength { encoding: "ncname-32", expected: 26, got: s.len() as usize })
    } else if caseless_run(s) < 26 {
        Err(
            DecodeError::InvalidCharacter {
                encoding: "ncname-32",
                position: caseless_run(s) as usize,
                byte: s[caseless_run(s) as int],
            },
        )
    } else {
        match bookend_lower(s[0]) {
            None => Err(bookend_error("ncname-32")),
            Some(v) => match Alphabet::Base32Std.val(s[25]) {
                None => Err(DecodeError::InvalidCharacter { encoding: "ncname-32", position: 25, byte: s[25] }),
                Some(l) => if l >= 16 {
                    Err(last_char_error("ncname-32"))
                } else {
                    match read_digits(Alphabet::Base32Std, s.subrange(1, 25), "ncname-32", 1) {
                        Err(e) => Err(e),
                        Ok(d) => Ok(nc_compose(v as nat, l as nat, digits_value(d, 32))),
                    }
                },
            },
        }
    }
}

/// UUID-NCName-64 decoding: length 22; an uppercase version bookend; a
/// last Base64url character worth less than 16; 20 Base64url symbols of
/// body (errors at their input index).
pub open spec fn spec_from_ncname_64(s: Seq<u8>) -> Result<nat, DecodeError> {
    if s.len() != 22 {
        Err(DecodeError::InvalidLength { encoding: "ncname-64", expected: 22, got: s.len() as usize })
    } else {
        match bookend_upper(s[0]) {
            None => Err(bookend_error("ncname-64")),
            Some(v) => match Alphabet::Base64Url.val(s[21]) {
                None => Err(DecodeError::InvalidCharacter { encoding: "ncname-64", position: 21, byte: s[21] }),
                Some(l) => if l >= 16 {
                    Err(last_char_error("ncname-64"))
                } else {
                    match read_digits(Alphabet::Base64Url, s.subrange(1, 21), "ncname-64", 1) {
                        Err(e) => Err(e),
                        Ok(d) => Ok(nc_compose(v as nat, l as nat, digits_value(d, 64))),
                    }
                },
            },
        }
    }
}

/// The body of a UUID-NCName-58 string without its trailing underscores.
pub open spec fn nc58_core(s: Seq<u8>) -> Seq<u8> {
    let body = s.subrange(1, 22);
    body.take(21 - leading_run(body.reverse(), 0x5f))
}

/// UUID-NCName-58 decoding: length 23; uppercase bookends at both ends;
/// no underscore before the trailing run; the rest read as a padded
/// Base58 integer of 15 bytes; and the result must spell back to the
/// input exactly.
pub open spec fn spec_from_ncname_58(s: Seq<u8>) -> Result<nat, DecodeError> {
    if s.len() != 23 {
        Err(DecodeError::InvalidLength { encoding: "ncname-58", expected: 23, got: s.len() as usize })
    } else {
        match bookend_upper(s[0]) {
            None => Err(bookend_error("ncname-58")),
            Some(v) => match bookend_upper(s[22]) {
                None => Err(bookend_error("ncname-58")),
                Some(vn) => if nc58_core(s).contains(0x5f) {
                    Err(
                        DecodeError::SchemeViolation {
                            encoding: "ncname-58",
                            reason: "underscore padding is non-canonical",
                        },
                    )
                } else {
                    match read_integer_padded(Alphabet::Base58Btc, nc58_core(s), "ncname-58", 15, 1) {
                        Err(e) => Err(e),
                        Ok(b) => if spec_to_ncname_58(nc_compose(v as nat, vn as nat, b)) != s {
                            Err(
                                DecodeError::SchemeViolation {
                                    encoding: "ncname-58",
                                    reason: "input is not the canonical encoding of its UUID",
                                },
                            )
                        } else {
                            Ok(nc_compose(v as nat, vn as nat, b))
                        },
                    }
                },
            },
        }
    }
}

/// Which case a bookend must have.
#[derive(Clone, Copy)]
enum Range {
    Upper,
    Lower,
}

/// Case-sensitive bookend lookup. The encoder always emits uppercase
/// `A`–`P` for NCName-58 and NCName-64, lowercase `a`–`p` for NCName-32;
/// the decoder rejects the other case to avoid aliasing.
fn lookup_bookend_strict(c: u8, allowed: Range, encoding: &'static str) -> (r: Result<u8, DecodeError>)
    ensures
        ({
            let expect = match allowed {
                Range::Upper => bookend_upper(c),
                Range::Lower => bookend_lower(c),
            };
            match expect {
                Some(x) => r == Ok::<u8, DecodeError>(x),
                None => r == Err::<u8, DecodeError>(bookend_error(encoding)),
            }
        }),
{
    let in_range = match allowed {
        Range::Upper => 0x41 <= c && c <= 0x50,
        Range::Lower => 0x61 <= c && c <= 0x70,
    };
    if !in_range {
        return Err(
            DecodeError::SchemeViolation {
                encoding,
                reason: "version/variant bookend must be in A–P (case must match canonical form)",
            },
        );
    }
    match allowed {
        Range::Upper => Ok(c - 0x41),
        Range::Lower => Ok(c - 0x61),
    }
}

/// The run of non-uppercase bytes ends at `k` exactly when the first `k`
/// bytes are not uppercase and byte `k` is (or there is none).
proof fn lemma_caseless_run(s: Seq<u8>, k: int)
    requires
        0 <= k <= s.len(),
        forall|i: int| 0 <= i < k ==> !is_upper(#[trigger] s[i]),
        k == s.len() || is_upper(s[k]),
    ensures
        caseless_run(s) == k,
    decreases k,
{
    if k > 0 {
        let t = s.drop_first();
        assert forall|i: int| 0 <= i < k - 1 implies !is_upper(#[trigger] t[i]) by {
            assert(t[i] == s[i + 1]);
        }
        if k - 1 < t.len() {
            assert(t[k - 1] == s[k]);
        }
        lemma_caseless_run(t, k - 1);
    } else {
        if s.len() > 0 {
            assert(is_upper(s[0]));
        }
    }
}

/// Parse a 26-character UUID-NCName-32 string.
///
/// The canonical form is fully lowercase (`a`–`p` bookends, `a`–`z`/`2`–`7`
/// body); any uppercase character is rejected so that two distinct strings
/// can never decode to the same UUID.
pub fn from_ncname_32(input: &str) -> (r: Result<Uuid, DecodeError>)
    ensures
        crate::decoded_as(r, spec_from_ncname_32(input.spec_bytes())),
{
    let bytes = input.as_bytes();
    if bytes.len() != 26 {
        return Err(DecodeError::InvalidLength { encoding: "ncname-32", expected: 26, got: bytes.len() });
    }
    let mut i: usize = 0;
    while i < 26 && !(0x41 <= bytes[i] && bytes[i] <= 0x5a)
        invariant
            i <= 26,
            bytes@.len() == 26,
            forall|j: int| 0 <= j < i ==> !is_upper(#[trigger] bytes@[j]),
        decreases 26 - i,
    {
        i += 1;
    }
    proof {
        lemma_caseless_run(bytes@, i as int);
    }
    if i < 26 {
        return Err(DecodeError::InvalidCharacter { encoding: "ncname-32", position: i, byte: bytes[i] });
    }
    let version = lookup_bookend_strict(bytes[0], Range::Lower, "ncname-32")?;
    let last = bytes[25];
    let last_val = match Alphabet::Base32Std.value_of(last) {
        None => {
            return Err(DecodeError::InvalidCharacter { encoding: "ncname-32", position: 25, byte: last });
        },
        Some(x) => x,
    };
    if last_val >= 16 {
        return Err(
            DecodeError::SchemeViolation {
                encoding: "ncname-32",
                reason: "last character must be A–P (canonical form)",
            },
        );
    }
    let body = &bytes[1..25];
    assert(body@ =~= bytes@.subrange(1, 25));
    let d = read_digits_of(Alphabet::Base32Std, body, "ncname-32", 1)?;
    proof {
        crate::alphabets::lemma_read_digits_ok(Alphabet::Base32Std, body@, "ncname-32", 1);
        lemma_value_bound(d@, 32);
        crate::digits::lemma_bit_powers();
    }
    let b = digits_to_u128(&d, 32);
    Ok(ncname_unshift(version, last_val, b))
}

/// Parse a 22-character UUID-NCName-64 string.
///
/// The canonical form has an uppercase first bookend (`A`–`P`) and a
/// mixed-case Base64url body. Rejects a lowercase first bookend (would
/// alias to the same UUID) and any final body character whose bits the
/// encoder would never emit.
pub fn from_ncname_64(input: &str) -> (r: Result<Uuid, DecodeError>)
    ensures
        crate::decoded_as(r, spec_from_ncname_64(input.spec_bytes())),
{
    let bytes = input.as_bytes();
    if bytes.len() != 22 {
        return Err(DecodeError::InvalidLength { encoding: "ncname-64", expected: 22, got: bytes.len() });
    }
    let version = lookup_bookend_strict(bytes[0], Range::Upper, "ncname-64")?;
    let last = bytes[21];
    let last_val = match Alphabet::Base64Url.value_of(last) {
        None => {
            return Err(DecodeError::InvalidCharacter { encoding: "ncname-64", position: 21, byte: last });
        },
        Some(x) => x,
    };
    if last_val >= 16 {
        return Err(
            DecodeError::SchemeViolation {
                encoding: "ncname-64",
                reason: "last character must be A–P (canonical form)",
            },
        );
    }
    let body = &bytes[1..21];
    assert(body@ =~= bytes@.subrange(1, 21));
    let d = read_digits_of(Alphabet::Base64Url, body, "ncname-64", 1)?;
    proof {
        crate::alphabets::lemma_read_digits_ok(Alphabet::Base64Url, body@, "ncname-64", 1);
        lemma_value_bound(d@, 64);
        crate::digits::lemma_bit_powers();
    }
    let b = digits_to_u128(&d, 64);
    Ok(ncname_unshift(version, last_val, b))
}

/// Whether `c` occurs in `s`.
fn has_byte(s: &[u8], c: u8) -> (r: bool)
    ensures
        r == s@.contains(c),
{
    let mut j: usize = 0;
    while j < s.len()
        invariant
            j <= s@.len(),
            forall|k: int| 0 <= k < j ==> s@[k] != c,
        decreases s@.len() - j,
    {
        if s[j] == c {
            assert(s@[j as int] == c);
            return true;
        }
        j += 1;
    }
    false
}

/// Whether two byte strings are equal.
fn same_bytes(a: &[u8], b: &[u8]) -> (r: bool)
    ensures
        r == (a@ == b@),
{
    if a.len() != b.len() {
        return false;
    }
    let mut i: usize = 0;
    while i < a.len()
        invariant
            i <= a@.len() == b@.len(),
            forall|j: int| 0 <= j < i ==> a@[j] == b@[j],
        decreases a@.len() - i,
    {
        if a[i] != b[i] {
            return false;
        }
        i += 1;
    }
    assert(a@ =~= b@);
    true
}

/// Parse a 23-character UUID-NCName-58 string.
///
/// The canonical form has uppercase bookends (`A`–`P`) and a mixed-case
/// Base58 body (the alphabet itself is case-sensitive). Rejects
/// lowercase bookends, underscore padding that isn't a contiguous
/// trailing run, and any input that, while parseable, doesn't byte-exactly
/// match the canonical encoding of its decoded UUID.
pub fn from_ncname_58(input: &str) -> (r: Result<Uuid, DecodeError>)
    ensures
        crate::decoded_as(r, spec_from_ncname_58(input.spec_bytes())),
{
    let bytes = input.as_bytes();
    if bytes.len() != 23 {
        return Err(DecodeError::InvalidLength { encoding: "ncname-58", expected: 23, got: bytes.len() });
    }
    let version = lookup_bookend_strict(bytes[0], Range::Upper, "ncname-58")?;
    let variant = lookup_bookend_strict(bytes[22], Range::Upper, "ncname-58")?;
    let body = &bytes[1..22];
    assert(body@ =~= bytes@.subrange(1, 22));
    let mut trailing: usize = 0;
    while trailing < 21 && body[20 - trailing] == 0x5f
        invariant
            trailing <= 21,
            body@.len() == 21,
            forall|j: int| 0 <= j < trailing ==> #[trigger] body@.reverse()[j] == 0x5f,
        decreases 21 - trailing,
    {
        trailing += 1;
    }
    proof {
        crate::integer_base::lemma_leading_run(body@.reverse(), 0x5f, trailing as int);
    }
    let end = 21 - trailing;
    let core = &body[0..end];
    assert(core@ =~= nc58_core(bytes@));
    if has_byte(core, 0x5f) {
        return Err(
            DecodeError::SchemeViolation {
                encoding: "ncname-58",
                reason: "underscore padding is non-canonical",
            },
        );
    }
    let leading = decode_integer_padded("ncname-58", core, Alphabet::Base58Btc, 15, 1)?;
    proof {
        lemma_value_bound(leading@, 256);
        crate::digits::lemma_pow256_values();
    }
    let b = bytes_value(leading.as_slice());
    let uuid = ncname_unshift(version, variant, b);
    let canon = ncname_58_bytes(&uuid);
    if !same_bytes(canon.as_slice(), bytes) {
        return Err(
            DecodeError::SchemeViolation {
                encoding: "ncname-58",
                reason: "input is not the canonical encoding of its UUID",
            },
        );
    }
    Ok(uuid)
}

/// Reading back the UUID-NCName-58 body digits gives the body.
proof fn lemma_nc58_read(b: nat, enc: &'static str, offset: nat)
    requires
        b < body_limit(),
    ensures
        read_integer_padded(
            Alphabet::Base58Btc,
            spell(Alphabet::Base58Btc, integer_digits(fixed_digits(b, 256, 15), 58, true)),
            enc,
            15,
            offset,
        ) == Ok::<nat, DecodeError>(b),
{
    let a = Alphabet::Base58Btc;
    let d = integer_digits(fixed_digits(b, 256, 15), 58, true);
    lemma_nc58_digits(b);
    let s = spell(a, d);
    let one = a.sym(0);
    crate::alphabets::lemma_sym_val(a, 0);
    if b == 0 {
        assert forall|i: int| 0 <= i < 15 implies #[trigger] s[i] == one by {
            assert(d[i] == 0);
        }
        crate::integer_base::lemma_leading_run(s, one, 15);
        assert(s.skip(15) =~= Seq::<u8>::empty());
    } else {
        let lz = leading_run(fixed_digits(b, 256, 15), 0);
        let m = min_digits(b, 58);
        crate::digits::lemma_min_value(b, 58);
        assert forall|i: int| 0 <= i < lz implies #[trigger] s[i] == one by {
            assert(d[i] == 0);
        }
        assert(d[lz as int] == m[0]);
        assert((m[0] as nat) < 58);
        crate::alphabets::lemma_sym_val(a, m[0]);
        assert(s[lz as int] != one);
        crate::integer_base::lemma_leading_run(s, one, lz as int);
        assert(s.skip(lz as int) =~= spell(a, m));
        crate::integer_encodings::lemma_read_integer_spell(
            a,
            m,
            enc,
            pow(256, (15 - lz) as nat) as nat,
            offset + lz,
        );
    }
}

/// A lowercased Base32 symbol reads back as its digit.
proof fn lemma_lower_b32(x: u8)
    requires
        x < 32,
    ensures
        Alphabet::Base32Std.val(to_lower(Alphabet::Base32Std.sym(x))) == Some(x),
        !is_upper(to_lower(Alphabet::Base32Std.sym(x))),
        to_lower(Alphabet::Base32Std.sym(x)) < 0x80,
{
}

/// A run of non-uppercase bytes covers its bytes.
pub proof fn lemma_caseless_run_props(s: Seq<u8>)
    ensures
        caseless_run(s) <= s.len(),
        forall|i: int| 0 <= i < caseless_run(s) ==> !is_upper(#[trigger] s[i]),
    decreases s.len(),
{
    if s.len() > 0 && !is_upper(s[0]) {
        let t = s.drop_first();
        lemma_caseless_run_props(t);
        assert forall|i: int| 0 <= i < caseless_run(s) implies !is_upper(#[trigger] s[i]) by {
            if i > 0 {
                assert(s[i] == t[i - 1]);
            }
        }
    }
}

/// UUID-NCName-32 decoding inverts UUID-NCName-32 encoding:
/// `from_ncname_32(&u.to_ncname_32()) == Ok(u)`.
pub proof fn law_ncname_32_round_trip(n: nat)
    requires
        n < uuid_limit(),
    ensures
        spec_from_ncname_32(encode_utf8(ascii_text(spec_to_ncname_32(n)))) == Ok::<nat, DecodeError>(n),
{
    lemma_compose_split(n);
    let v = nc_version(n);
    let vn = nc_variant(n);
    let b = nc_body(n);
    let f = fixed_digits(b, 32, 24);
    lemma_fixed_below(b, 32, 24);
    let raw = seq![bookend_sym(v)] + spell(Alphabet::Base32Std, f) + seq![bookend_sym(vn)];
    let s = spec_to_ncname_32(n);
    assert(s.len() == 26);
    assert forall|i: int| 0 <= i < 26 implies !is_upper(#[trigger] s[i]) && s[i] < 0x80
        && Alphabet::Base32Std.val(s[i]) is Some by {
        if i == 0 {
            lemma_lower_b32(v as u8);
        } else if i == 25 {
            lemma_lower_b32(vn as u8);
        } else {
            assert(raw[i] == Alphabet::Base32Std.sym(f[i - 1]));
            lemma_lower_b32(f[i - 1]);
        }
    }
    lemma_ascii_utf8(s);
    lemma_caseless_run(s, 26);
    lemma_lower_b32(vn as u8);
    let body = s.subrange(1, 25);
    assert forall|i: int| 0 <= i < 24 implies Alphabet::Base32Std.val(#[trigger] body[i]) == Some(
        f[i],
    ) by {
        assert(body[i] == to_lower(Alphabet::Base32Std.sym(f[i])));
        lemma_lower_b32(f[i]);
    }
    lemma_read_digits_exact(Alphabet::Base32Std, body, f, "ncname-32", 1);
    crate::digits::lemma_fixed_value(b, 32, 24);
    crate::digits::lemma_bit_powers();
    vstd::arithmetic::div_mod::lemma_small_mod(b, body_limit());
}

/// UUID-NCName-64 decoding inverts UUID-NCName-64 encoding:
/// `from_ncname_64(&u.to_ncname_64()) == Ok(u)`.
pub proof fn law_ncname_64_round_trip(n: nat)
    requires
        n < uuid_limit(),
    ensures
        spec_from_ncname_64(encode_utf8(ascii_text(spec_to_ncname_64(n)))) == Ok::<nat, DecodeError>(n),
{
    lemma_compose_split(n);
    let v = nc_version(n);
    let vn = nc_variant(n);
    let b = nc_body(n);
    let f = fixed_digits(b, 64, 20);
    lemma_fixed_below(b, 64, 20);
    let s = spec_to_ncname_64(n);
    crate::alphabets::lemma_spell_ascii(Alphabet::Base64Url, f);
    crate::alphabets::lemma_sym_val(Alphabet::Base32Std, v as u8);
    crate::alphabets::lemma_sym_val(Alphabet::Base64Url, vn as u8);
    assert(all_ascii(s)) by {
        assert forall|i: int| 0 <= i < s.len() implies (#[trigger] s[i]) < 0x80 by {
            if 1 <= i < 21 {
                assert(s[i] == spell(Alphabet::Base64Url, f)[i - 1]);
            }
        }
    }
    lemma_ascii_utf8(s);
    assert(s.subrange(1, 21) =~= spell(Alphabet::Base64Url, f));
    crate::alphabets::lemma_read_spell(Alphabet::Base64Url, f, "ncname-64", 1);
    crate::digits::lemma_fixed_value(b, 64, 20);
    crate::digits::lemma_bit_powers();
    vstd::arithmetic::div_mod::lemma_small_mod(b, body_limit());
}

/// UUID-NCName-58 decoding inverts UUID-NCName-58 encoding:
/// `from_ncname_58(&u.to_ncname_58()) == Ok(u)`.
pub proof fn law_ncname_58_round_trip(n: nat)
    requires
        n < uuid_limit(),
    ensures
        spec_from_ncname_58(encode_utf8(ascii_text(spec_to_ncname_58(n)))) == Ok::<nat, DecodeError>(n),
{
    lemma_compose_split(n);
    let v = nc_version(n);
    let vn = nc_variant(n);
    let b = nc_body(n);
    let a = Alphabet::Base58Btc;
    let d = nc58_digits(n);
    lemma_nc58_digits(b);
    let sp = spell(a, d);
    crate::alphabets::lemma_spell_ascii(a, d);
    let s = spec_to_ncname_58(n);
    let k = d.len();
    assert(s.len() == 23);
    assert forall|i: int| 0 <= i < k implies (#[trigger] sp[i]) != 0x5f by {
        crate::alphabets::lemma_sym_val(a, d[i]);
    }
    assert(all_ascii(s)) by {
        assert forall|i: int| 0 <= i < s.len() implies (#[trigger] s[i]) < 0x80 by {
            if 1 <= i <= k {
                assert(s[i] == sp[i - 1]);
            }
        }
    }
    lemma_ascii_utf8(s);
    let body = s.subrange(1, 22);
    let rb = body.reverse();
    assert forall|j: int| 0 <= j < 21 - k implies #[trigger] rb[j] == 0x5f by {
        assert(rb[j] == body[20 - j]);
    }
    assert(rb[21 - k] == sp[k - 1]);
    crate::integer_base::lemma_leading_run(rb, 0x5f, 21 - k);
    assert(nc58_core(s) =~= sp);
    assert(!sp.contains(0x5f));
    lemma_nc58_read(b, "ncname-58", 1);
}

/// Every UUID-NCName-32 string that decodes is the encoding of what it
/// decodes to.
pub proof fn law_ncname_32_canonical(s: Seq<u8>)
    requires
        spec_from_ncname_32(s) is Ok,
    ensures
        spec_to_ncname_32(spec_from_ncname_32(s).unwrap()) == s,
{
    let a = Alphabet::Base32Std;
    lemma_caseless_run_props(s);
    let v = bookend_lower(s[0]).unwrap();
    let l = a.val(s[25]).unwrap();
    let body = s.subrange(1, 25);
    let d = read_digits(a, body, "ncname-32", 1).unwrap();
    crate::alphabets::lemma_read_digits_ok(a, body, "ncname-32", 1);
    lemma_value_bound(d, 32);
    crate::digits::lemma_bit_powers();
    let b = digits_value(d, 32);
    lemma_split_compose(v as nat, l as nat, b);
    crate::digits::lemma_fixed_of_value(d, 32);
    let n = nc_compose(v as nat, l as nat, b);
    assert(!is_upper(s[25]));
    assert(s[25] == to_lower(bookend_sym(l as nat)));
    assert forall|i: int| 0 <= i < 24 implies to_lower(a.sym(#[trigger] d[i])) == body[i] by {
        assert(body[i] == s[i + 1]);
        crate::alphabets::lemma_val_sym(a, body[i]);
    }
    assert(spec_to_ncname_32(n) =~= s);
}

/// Every UUID-NCName-64 string that decodes is the encoding of what it
/// decodes to.
pub proof fn law_ncname_64_canonical(s: Seq<u8>)
    requires
        spec_from_ncname_64(s) is Ok,
    ensures
        spec_to_ncname_64(spec_from_ncname_64(s).unwrap()) == s,
{
    let a = Alphabet::Base64Url;
    let v = bookend_upper(s[0]).unwrap();
    let l = a.val(s[21]).unwrap();
    let body = s.subrange(1, 21);
    let d = read_digits(a, body, "ncname-64", 1).unwrap();
    crate::alphabets::lemma_read_digits_ok(a, body, "ncname-64", 1);
    lemma_value_bound(d, 64);
    crate::digits::lemma_bit_powers();
    let b = digits_value(d, 64);
    lemma_split_compose(v as nat, l as nat, b);
    crate::digits::lemma_fixed_of_value(d, 64);
    let n = nc_compose(v as nat, l as nat, b);
    crate::alphabets::lemma_val_sym(a, s[21]);
    assert forall|i: int| 0 <= i < 20 implies a.sym(#[trigger] d[i]) == body[i] by {
        crate::alphabets::lemma_val_sym(a, body[i]);
    }
    assert(spec_to_ncname_64(n) =~= s);
}

/// Every UUID-NCName-58 string that decodes is the encoding of what it
/// decodes to.
pub proof fn law_ncname_58_canonical(s: Seq<u8>)
    requires
        spec_from_ncname_58(s) is Ok,
    ensures
        spec_to_ncname_58(spec_from_ncname_58(s).unwrap()) == s,
{
}

/// Two distinct strings never decode to the same UUID, in any of the three
/// UUID-NCName variants.
pub proof fn law_ncname_no_alias(s1: Seq<u8>, s2: Seq<u8>)
    ensures
        spec_from_ncname_32(s1) is Ok && spec_from_ncname_32(s1) == spec_from_ncname_32(s2) ==> s1
            == s2,
        spec_from_ncname_58(s1) is Ok && spec_from_ncname_58(s1) == spec_from_ncname_58(s2) ==> s1
            == s2,
        spec_from_ncname_64(s1) is Ok && spec_from_ncname_64(s1) == spec_from_ncname_64(s2) ==> s1
            == s2,
{
    if spec_from_ncname_32(s1) is Ok && spec_from_ncname_32(s1) == spec_from_ncname_32(s2) {
        law_ncname_32_canonical(s1);
        law_ncname_32_canonical(s2);
    }
    if spec_from_ncname_58(s1) is Ok && spec_from_ncname_58(s1) == spec_from_ncname_58(s2) {
        law_ncname_58_canonical(s1);
        law_ncname_58_canonical(s2);
    }
    if spec_from_ncname_64(s1) is Ok && spec_from_ncname_64(s1) == spec_from_ncname_64(s2) {
        law_ncname_64_canonical(s1);
        law_ncname_64_canonical(s2);
    }
}

/// The UUID-NCName-58 spelling: 23 ASCII bytes, bookends at both ends and,
/// in between, Base58 symbols and underscores only (no `0`, `O`, `I`, `l`).
pub proof fn lemma_ncname_58_chars(n: nat)
    requires
        n < uuid_limit(),
    ensures
        spec_to_ncname_58(n).len() == 23,
        all_ascii(spec_to_ncname_58(n)),
        spec_to_ncname_58(n)[0] == bookend_sym(nc_version(n)),
        spec_to_ncname_58(n)[22] == bookend_sym(nc_variant(n)),
        forall|i: int|
            1 <= i < 22 ==> #[trigger] spec_to_ncname_58(n)[i] != 0x30 && spec_to_ncname_58(n)[i]
                != 0x4f && spec_to_ncname_58(n)[i] != 0x49 && spec_to_ncname_58(n)[i] != 0x6c,
{
    lemma_compose_split(n);
    let a = Alphabet::Base58Btc;
    let d = nc58_digits(n);
    lemma_nc58_digits(nc_body(n));
    let sp = spell(a, d);
    crate::alphabets::lemma_spell_ascii(a, d);
    let s = spec_to_ncname_58(n);
    let k = d.len();
    assert forall|i: int| 0 <= i < s.len() implies (#[trigger] s[i]) < 0x80 && (1 <= i < 22 ==> (
    s[i] != 0x30 && s[i] != 0x4f && s[i] != 0x49 && s[i] != 0x6c)) by {
        if 1 <= i <= k {
            assert(s[i] == sp[i - 1]);
            assert((d[i - 1] as nat) < 58);
        }
    }
}

/// A byte allowed in the identifiers the encodings produce: an ASCII
/// letter or digit, `-` or `_`.
pub open spec fn id_char(c: u8) -> bool {
    is_upper(c) || crate::alphabets::is_lower(c) || crate::alphabets::is_digit(c) || c == 0x2d
        || c == 0x5f
}

/// `s` is usable as an XML NCName or an HTML/CSS `id`: it starts with an
/// ASCII letter and holds only letters, digits, `-` and `_`.
pub open spec fn is_ncname_id(s: Seq<u8>) -> bool {
    &&& s.len() > 0
    &&& (is_upper(s[0]) || crate::alphabets::is_lower(s[0]))
    &&& forall|i: int| 0 <= i < s.len() ==> id_char(#[trigger] s[i])
}

/// The three UUID-NCName spellings and the Base62id spelling of every
/// UUID are safe to embed as XML NCNames and HTML/CSS ids.
pub proof fn law_ncname_outputs_are_ids(n: nat)
    requires
        n < uuid_limit(),
    ensures
        is_ncname_id(spec_to_ncname_32(n)),
        is_ncname_id(spec_to_ncname_58(n)),
        is_ncname_id(spec_to_ncname_64(n)),
        is_ncname_id(crate::base62id::spec_to_base62id(n)),
{
    lemma_compose_split(n);
    let v = nc_version(n);
    let vn = nc_variant(n);
    let b = nc_body(n);
    // NCName-32
    let body32 = fixed_digits(b, 32, 24);
    lemma_fixed_below(b, 32, 24);
    let raw = seq![bookend_sym(v)] + spell(Alphabet::Base32Std, body32) + seq![bookend_sym(vn)];
    let s32 = spec_to_ncname_32(n);
    assert forall|i: int| 0 <= i < s32.len() implies id_char(#[trigger] s32[i]) by {
        if 1 <= i < 25 {
            assert(raw[i] == Alphabet::Base32Std.sym(body32[i - 1]));
            assert((body32[i - 1] as nat) < 32);
        }
    }
    // NCName-64
    let body64 = fixed_digits(b, 64, 20);
    lemma_fixed_below(b, 64, 20);
    let s64 = spec_to_ncname_64(n);
    assert forall|i: int| 0 <= i < s64.len() implies id_char(#[trigger] s64[i]) by {
        if 1 <= i < 21 {
            assert(s64[i] == Alphabet::Base64Url.sym(body64[i - 1]));
            assert((body64[i - 1] as nat) < 64);
        }
    }
    // NCName-58
    let d = nc58_digits(n);
    lemma_nc58_digits(b);
    let s58 = spec_to_ncname_58(n);
    let k = d.len();
    assert forall|i: int| 0 <= i < s58.len() implies id_char(#[trigger] s58[i]) by {
        if 1 <= i <= k {
            assert(s58[i] == Alphabet::Base58Btc.sym(d[i - 1]));
            assert((d[i - 1] as nat) < 58);
        }
    }
    // Base62id
    crate::base62id::lemma_base62id_shape(n);
    let v62 = crate::base62id::base62id_value(n);
    crate::digits::lemma_min_value(v62, 62);
    let m = min_digits(v62, 62);
    let s62 = crate::base62id::spec_to_base62id(n);
    assert forall|i: int| 0 <= i < s62.len() implies id_char(#[trigger] s62[i]) by {
        assert(s62[i] == Alphabet::Base62Sort.sym(m[i]));
        assert((m[i] as nat) < 62);
    }
}

/// A big-endian byte string divided by `256^(len - k)` leaves its first
/// `k` bytes.
proof fn lemma_prefix_quotient(d: Seq<u8>, k: int)
    requires
        0 <= k <= d.len(),
        digits_below(d, 256),
    ensures
        digits_value(d, 256) / (pow(256, (d.len() - k) as nat) as nat) == digits_value(
            d.take(k),
            256,
        ),
{
    let rest = d.skip(k);
    assert(d =~= d.take(k) + rest);
    crate::digits::lemma_value_concat(d.take(k), rest, 256);
    assert(digits_below(rest, 256)) by {
        assert forall|i: int| 0 <= i < rest.len() implies (#[trigger] rest[i] as nat) < 256 by {
            assert(rest[i] == d[i + k]);
        }
    }
    lemma_value_bound(rest, 256);
    lemma_fundamental_div_mod_converse(
        digits_value(d, 256) as int,
        pow(256, rest.len()) as int,
        digits_value(d.take(k), 256) as int,
        digits_value(rest, 256) as int,
    );
}

/// The high nibble of byte `k - 1` is the remainder mod 16 of the first
/// `k` bytes' value divided by 16.
proof fn lemma_last_high_nibble(d: Seq<u8>, k: int)
    requires
        1 <= k <= d.len(),
    ensures
        (digits_value(d.take(k), 256) / 16) % 16 == (d[k - 1] / 16) as nat,
{
    let p = d.take(k);
    assert(p.drop_last() =~= d.take(k - 1));
    let q = digits_value(d.take(k - 1), 256);
    let b = d[k - 1] as nat;
    assert(digits_value(p, 256) == q * 256 + b);
    vstd::arithmetic::div_mod::lemma_fundamental_div_mod(b as int, 16);
    lemma_mod_bound(b as int, 16);
    lemma_fundamental_div_mod_converse(
        digits_value(p, 256) as int,
        16,
        (q * 16 + b / 16) as int,
        (b % 16) as int,
    );
    lemma_fundamental_div_mod_converse((q * 16 + b / 16) as int, 16, q as int, (b / 16) as int);
}

/// The NCName bookends carry the UUID's version and variant: the nibbles
/// read from the value are the high halves of bytes 6 and 8.
pub proof fn law_ncname_nibbles(u: Uuid)
    ensures
        nc_version(u.value()) == u.spec_version() as nat,
        nc_variant(u.value()) == u.spec_variant() as nat,
{
    lemma_uuid_wf(u);
    crate::digits::lemma_pow256_values();
    assert(digits_below(u@, 256));
    let n = u.value();
    lemma_prefix_quotient(u@, 7);
    lemma_prefix_quotient(u@, 9);
    lemma_last_high_nibble(u@, 7);
    lemma_last_high_nibble(u@, 9);
    vstd::arithmetic::div_mod::lemma_div_denominator(n as int, 0x100_0000_0000_0000_0000, 16);
    vstd::arithmetic::div_mod::lemma_div_denominator(n as int, 0x100_0000_0000_0000, 16);
}

} // verus!
