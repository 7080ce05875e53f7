//! Only encoder outputs decode: for the fixed-width encodings (hex, the
//! Base32 and Base64 families, Z85, Base62id), a string decodes to a UUID
//! exactly when it is that UUID's spelling, up to letter case for the
//! case-folding alphabets. No two strings alias, apart from case.

use vstd::prelude::*;

use crate::alphabets::{lemma_read_digits_ok, lemma_val_sym, read_digits, spell, Alphabet};
use crate::base16::{
    dashed, first_misplaced_dash, hex_name, is_dash_position, read_hex_groups, spec_from_hex,
    spec_from_hex_dash, spec_from_hex_plain, spec_hex, spec_hex_dash,
};
use crate::base32_64::{
    lemma_layouts, spec_from_base32, spec_from_base64, spec_to_base32, spec_to_base64,
};
use crate::base62id::{base62id_value, spec_from_base62id, spec_to_base62id};
use crate::base85::{read_z85_chunk, spec_from_z85, spec_to_z85, z85_chunk, z85_chunk_digits};
use crate::bitstream::{lemma_bits_round_trip, spec_read_bits};
use crate::case_folding::{law_case_insensitive_decoders, same_but_case};
use crate::digits::{digits_value, fixed_digits, lemma_fixed_of_value, min_digits};
use crate::error::DecodeError;
use crate::text::lemma_ascii_utf8;
use crate::uuid_limit;
use vstd::arithmetic::div_mod::lemma_fundamental_div_mod_converse;
use vstd::arithmetic::power::pow;

verus! {

/// Bytes that read as digits `d` are the spelling of `d`, up to case for
/// a case-folding alphabet and exactly otherwise.
proof fn lemma_spell_back(a: Alphabet, s: Seq<u8>, enc: &'static str, offset: nat)
    requires
        read_digits(a, s, enc, offset) is Ok,
    ensures
        same_but_case(s, spell(a, read_digits(a, s, enc, offset).unwrap())),
        !a.folds_case() ==> s == spell(a, read_digits(a, s, enc, offset).unwrap()),
        read_digits(a, s, enc, offset).unwrap().len() == s.len(),
        crate::digits::digits_below(read_digits(a, s, enc, offset).unwrap(), a.size()),
{
    lemma_read_digits_ok(a, s, enc, offset);
    let d = read_digits(a, s, enc, offset).unwrap();
    let t = spell(a, d);
    assert forall|i: int| 0 <= i < s.len() implies crate::alphabets::to_lower(#[trigger] s[i])
        == crate::alphabets::to_lower(t[i]) && (!a.folds_case() ==> s[i] == t[i]) by {
        lemma_val_sym(a, s[i]);
    }
    if !a.folds_case() {
        assert(s =~= t);
    }
}

/// A bit-stream reading that succeeds reads the padded spelling of its
/// value.
proof fn lemma_bits_canonical(a: Alphabet, p: nat, enc: &'static str, s: Seq<u8>)
    requires
        2 <= a.size() <= 256,
        p >= 1,
        spec_read_bits(a, p, enc, s, 0) is Ok,
    ensures
        same_but_case(s, spell(a, fixed_digits(spec_read_bits(a, p, enc, s, 0).unwrap() * p, a.size(), s.len()))),
        !a.folds_case() ==> s == spell(
            a,
            fixed_digits(spec_read_bits(a, p, enc, s, 0).unwrap() * p, a.size(), s.len()),
        ),
{
    lemma_spell_back(a, s, enc, 0);
    let d = read_digits(a, s, enc, 0).unwrap();
    let v = digits_value(d, a.size());
    let n = spec_read_bits(a, p, enc, s, 0).unwrap();
    vstd::arithmetic::div_mod::lemma_fundamental_div_mod(v as int, p as int);
    vstd::arithmetic::mul::lemma_mul_is_commutative(n as int, p as int);
    assert(n * p == v);
    lemma_fixed_of_value(d, a.size());
}

/// Base32 (standard, hex, "humans") input decodes to a UUID exactly when
/// it is that UUID's spelling in some letter case.
pub proof fn law_base32_canonical(s: Seq<u8>, n: nat)
    requires
        n < uuid_limit(),
    ensures
        spec_from_base32(Alphabet::Base32Std, "base32", s) == Ok::<nat, DecodeError>(n)
            <==> same_but_case(s, spec_to_base32(Alphabet::Base32Std, n)),
        spec_from_base32(Alphabet::Base32Hex, "base32hex", s) == Ok::<nat, DecodeError>(n)
            <==> same_but_case(s, spec_to_base32(Alphabet::Base32Hex, n)),
        spec_from_base32(Alphabet::Base32Humans, "base32humans", s) == Ok::<nat, DecodeError>(n)
            <==> same_but_case(s, spec_to_base32(Alphabet::Base32Humans, n)),
{
    lemma_base32_one(Alphabet::Base32Std, "base32", s, n);
    lemma_base32_one(Alphabet::Base32Hex, "base32hex", s, n);
    lemma_base32_one(Alphabet::Base32Humans, "base32humans", s, n);
}

proof fn lemma_base32_one(a: Alphabet, enc: &'static str, s: Seq<u8>, n: nat)
    requires
        n < uuid_limit(),
        a == Alphabet::Base32Std && enc == "base32" || a == Alphabet::Base32Hex && enc
            == "base32hex" || a == Alphabet::Base32Humans && enc == "base32humans",
    ensures
        spec_from_base32(a, enc, s) == Ok::<nat, DecodeError>(n) <==> same_but_case(
            s,
            spec_to_base32(a, n),
        ),
{
    let e = spec_to_base32(a, n);
    lemma_layouts(a);
    lemma_bits_round_trip(a, 8, 4, 26, n, enc, 0);
    lemma_ascii_utf8(e);
    crate::base32_64::law_bitstream_round_trip(n, a, enc);
    if spec_from_base32(a, enc, s) == Ok::<nat, DecodeError>(n) {
        lemma_bits_canonical(a, 4, enc, s);
    }
    if same_but_case(s, e) {
        law_case_insensitive_decoders(e, s);
    }
}

/// Base64 (standard, URL-safe, sort) input decodes to a UUID exactly when
/// it is that UUID's spelling, byte for byte.
pub proof fn law_base64_canonical(s: Seq<u8>, n: nat)
    requires
        n < uuid_limit(),
    ensures
        spec_from_base64(Alphabet::Base64Std, "base64", s) == Ok::<nat, DecodeError>(n) <==> s
            == spec_to_base64(Alphabet::Base64Std, n),
        spec_from_base64(Alphabet::Base64Url, "base64url", s) == Ok::<nat, DecodeError>(n) <==> s
            == spec_to_base64(Alphabet::Base64Url, n),
        spec_from_base64(Alphabet::Base64Sort, "base64sort", s) == Ok::<nat, DecodeError>(n) <==> s
            == spec_to_base64(Alphabet::Base64Sort, n),
{
    lemma_base64_one(Alphabet::Base64Std, "base64", s, n);
    lemma_base64_one(Alphabet::Base64Url, "base64url", s, n);
    lemma_base64_one(Alphabet::Base64Sort, "base64sort", s, n);
}

proof fn lemma_base64_one(a: Alphabet, enc: &'static str, s: Seq<u8>, n: nat)
    requires
        n < uuid_limit(),
        a.size() == 64,
        !a.folds_case(),
    ensures
        spec_from_base64(a, enc, s) == Ok::<nat, DecodeError>(n) <==> s == spec_to_base64(a, n),
{
    let e = spec_to_base64(a, n);
    lemma_layouts(a);
    lemma_bits_round_trip(a, 4, 16, 22, n, enc, 0);
    lemma_ascii_utf8(e);
    crate::base32_64::law_bitstream_round_trip(n, a, enc);
    if spec_from_base64(a, enc, s) == Ok::<nat, DecodeError>(n) {
        lemma_bits_canonical(a, 16, enc, s);
    }
}

/// A 36-byte input whose dashes are all in place has a dash exactly at
/// the four dash positions.
proof fn lemma_dashes_in_place(s: Seq<u8>)
    requires
        first_misplaced_dash(s) is None,
    ensures
        forall|i: int| 0 <= i < s.len() ==> is_dash_position(i) == (#[trigger] s[i] == 0x2du8),
    decreases s.len(),
{
    if s.len() > 0 {
        lemma_dashes_in_place(s.drop_last());
        assert forall|i: int| 0 <= i < s.len() implies is_dash_position(i) == (#[trigger] s[i]
            == 0x2du8) by {
            if i < s.len() - 1 {
                assert(s[i] == s.drop_last()[i]);
            }
        }
    }
}

/// A plain-hex reading that succeeds reads a case variant of the spelling
/// of its value.
proof fn lemma_hex_plain_canonical(s: Seq<u8>)
    requires
        spec_from_hex_plain(s) is Ok,
    ensures
        same_but_case(s, spec_hex(spec_from_hex_plain(s).unwrap())),
{
    lemma_spell_back(Alphabet::Base16, s, hex_name(), 0);
    let d = read_digits(Alphabet::Base16, s, hex_name(), 0).unwrap();
    lemma_fixed_of_value(d, 16);
}

/// A hex-dash reading that succeeds reads a case variant of the dashed
/// spelling of its value.
proof fn lemma_hex_dash_canonical(s: Seq<u8>)
    requires
        spec_from_hex_dash(s) is Ok,
    ensures
        same_but_case(s, spec_hex_dash(spec_from_hex_dash(s).unwrap())),
{
    let a = Alphabet::Base16;
    let name = hex_name();
    lemma_dashes_in_place(s);
    let s0 = s.subrange(0, 8);
    let s1 = s.subrange(9, 13);
    let s2 = s.subrange(14, 18);
    let s3 = s.subrange(19, 23);
    let s4 = s.subrange(24, 36);
    lemma_spell_back(a, s0, name, 0);
    lemma_spell_back(a, s1, name, 9);
    lemma_spell_back(a, s2, name, 14);
    lemma_spell_back(a, s3, name, 19);
    lemma_spell_back(a, s4, name, 24);
    let g0 = read_digits(a, s0, name, 0).unwrap();
    let g1 = read_digits(a, s1, name, 9).unwrap();
    let g2 = read_digits(a, s2, name, 14).unwrap();
    let g3 = read_digits(a, s3, name, 19).unwrap();
    let g4 = read_digits(a, s4, name, 24).unwrap();
    let d = g0 + g1 + g2 + g3 + g4;
    assert(read_hex_groups(s) == Ok::<Seq<u8>, DecodeError>(d));
    assert(crate::digits::digits_below(d, 16)) by {
        assert forall|i: int| 0 <= i < d.len() implies (#[trigger] d[i] as nat) < 16 by {
            if i < 8 {
                assert(d[i] == g0[i]);
            } else if i < 12 {
                assert(d[i] == g1[i - 8]);
            } else if i < 16 {
                assert(d[i] == g2[i - 12]);
            } else if i < 20 {
                assert(d[i] == g3[i - 16]);
            } else {
                assert(d[i] == g4[i - 20]);
            }
        }
    }
    lemma_fixed_of_value(d, 16);
    let h = spell(a, d);
    let t = dashed(h);
    assert(h.subrange(0, 8) =~= spell(a, g0));
    assert(h.subrange(8, 12) =~= spell(a, g1));
    assert(h.subrange(12, 16) =~= spell(a, g2));
    assert(h.subrange(16, 20) =~= spell(a, g3));
    assert(h.subrange(20, 32) =~= spell(a, g4));
    assert forall|i: int| 0 <= i < 36 implies crate::alphabets::to_lower(#[trigger] s[i])
        == crate::alphabets::to_lower(t[i]) by {
        if i < 8 {
            assert(s[i] == s0[i] && t[i] == spell(a, g0)[i]);
        } else if 9 <= i < 13 {
            assert(s[i] == s1[i - 9] && t[i] == spell(a, g1)[i - 9]);
        } else if 14 <= i < 18 {
            assert(s[i] == s2[i - 14] && t[i] == spell(a, g2)[i - 14]);
        } else if 19 <= i < 23 {
            assert(s[i] == s3[i - 19] && t[i] == spell(a, g3)[i - 19]);
        } else if 24 <= i {
            assert(s[i] == s4[i - 24] && t[i] == spell(a, g4)[i - 24]);
        } else {
            assert(is_dash_position(i));
        }
    }
}

/// Hex input decodes to a UUID exactly when it is a case variant of that
/// UUID's plain (`from_hex_plain`), dashed (`from_hex_dash`) or either
/// (`from_hex`) spelling.
pub proof fn law_hex_canonical(s: Seq<u8>, n: nat)
    requires
        n < uuid_limit(),
    ensures
        spec_from_hex_plain(s) == Ok::<nat, DecodeError>(n) <==> same_but_case(s, spec_hex(n)),
        spec_from_hex_dash(s) == Ok::<nat, DecodeError>(n) <==> same_but_case(s, spec_hex_dash(n)),
        spec_from_hex(s) == Ok::<nat, DecodeError>(n) <==> (same_but_case(s, spec_hex(n))
            || same_but_case(s, spec_hex_dash(n))),
{
    crate::base16::law_hex_round_trip(n);
    lemma_ascii_utf8(spec_hex(n));
    lemma_ascii_utf8(spec_hex_dash(n));
    if spec_from_hex_plain(s) is Ok {
        lemma_hex_plain_canonical(s);
    }
    if spec_from_hex_dash(s) is Ok {
        lemma_hex_dash_canonical(s);
    }
    if same_but_case(s, spec_hex(n)) {
        law_case_insensitive_decoders(spec_hex(n), s);
    }
    if same_but_case(s, spec_hex_dash(n)) {
        law_case_insensitive_decoders(spec_hex_dash(n), s);
    }
}

/// A value written as four 32-bit chunks has those chunks.
proof fn lemma_z85_chunks_of(c0: nat, c1: nat, c2: nat, c3: nat)
    requires
        c0 < 0x1_0000_0000,
        c1 < 0x1_0000_0000,
        c2 < 0x1_0000_0000,
        c3 < 0x1_0000_0000,
    ensures
        ({
            let n = c0 * 0x1_0000_0000_0000_0000_0000_0000 + c1 * 0x1_0000_0000_0000_0000 + c2
                * 0x1_0000_0000 + c3;
            &&& z85_chunk(n, 0) == c0
            &&& z85_chunk(n, 1) == c1
            &&& z85_chunk(n, 2) == c2
            &&& z85_chunk(n, 3) == c3
        }),
{
    let n = c0 * 0x1_0000_0000_0000_0000_0000_0000 + c1 * 0x1_0000_0000_0000_0000 + c2
        * 0x1_0000_0000 + c3;
    let q1 = c0 * 0x1_0000_0000_0000_0000 + c1 * 0x1_0000_0000 + c2;
    let q2 = c0 * 0x1_0000_0000 + c1;
    lemma_fundamental_div_mod_converse(n as int, 0x1_0000_0000, q1 as int, c3 as int);
    lemma_fundamental_div_mod_converse(q1 as int, 0x1_0000_0000, q2 as int, c2 as int);
    lemma_fundamental_div_mod_converse(q2 as int, 0x1_0000_0000, c0 as int, c1 as int);
    lemma_fundamental_div_mod_converse(
        n as int,
        0x1_0000_0000_0000_0000,
        q2 as int,
        (c2 * 0x1_0000_0000 + c3) as int,
    );
    lemma_fundamental_div_mod_converse(
        n as int,
        0x1_0000_0000_0000_0000_0000_0000,
        c0 as int,
        (c1 * 0x1_0000_0000_0000_0000 + c2 * 0x1_0000_0000 + c3) as int,
    );
    vstd::arithmetic::div_mod::lemma_small_mod(c0, 0x1_0000_0000);
}

/// A Z85 group that reads as a 32-bit value is the spelling of that value.
proof fn lemma_z85_group(s: Seq<u8>, c: int)
    requires
        0 <= c < 4,
        s.len() == 20,
        read_z85_chunk(s, c) is Ok,
    ensures
        s.subrange(5 * c, 5 * c + 5) == spell(
            Alphabet::Z85,
            fixed_digits(read_z85_chunk(s, c).unwrap(), 85, 5),
        ),
        read_z85_chunk(s, c).unwrap() < 0x1_0000_0000,
{
    let g = s.subrange(5 * c, 5 * c + 5);
    lemma_spell_back(Alphabet::Z85, g, "Z85", (5 * c) as nat);
    let d = read_digits(Alphabet::Z85, g, "Z85", (5 * c) as nat).unwrap();
    lemma_fixed_of_value(d, 85);
}

/// Z85 input decodes to a UUID exactly when it is that UUID's spelling.
pub proof fn law_z85_canonical(s: Seq<u8>, n: nat)
    requires
        n < uuid_limit(),
    ensures
        spec_from_z85(s) == Ok::<nat, DecodeError>(n) <==> s == spec_to_z85(n),
{
    crate::base85::law_z85_round_trip(n);
    lemma_ascii_utf8(spec_to_z85(n));
    if spec_from_z85(s) == Ok::<nat, DecodeError>(n) {
        lemma_z85_group(s, 0);
        lemma_z85_group(s, 1);
        lemma_z85_group(s, 2);
        lemma_z85_group(s, 3);
        let c0 = read_z85_chunk(s, 0).unwrap();
        let c1 = read_z85_chunk(s, 1).unwrap();
        let c2 = read_z85_chunk(s, 2).unwrap();
        let c3 = read_z85_chunk(s, 3).unwrap();
        lemma_z85_chunks_of(c0, c1, c2, c3);
        let e = spec_to_z85(n);
        let a = Alphabet::Z85;
        assert(e.subrange(0, 5) =~= spell(a, z85_chunk_digits(n, 0)));
        assert(e.subrange(5, 10) =~= spell(a, z85_chunk_digits(n, 1)));
        assert(e.subrange(10, 15) =~= spell(a, z85_chunk_digits(n, 2)));
        assert(e.subrange(15, 20) =~= spell(a, z85_chunk_digits(n, 3)));
        assert forall|i: int| 0 <= i < 20 implies #[trigger] s[i] == e[i] by {
            if i < 5 {
                assert(s[i] == s.subrange(0, 5)[i] && e[i] == e.subrange(0, 5)[i]);
            } else if i < 10 {
                assert(s[i] == s.subrange(5, 10)[i - 5] && e[i] == e.subrange(5, 10)[i - 5]);
            } else if i < 15 {
                assert(s[i] == s.subrange(10, 15)[i - 10] && e[i] == e.subrange(10, 15)[i - 10]);
            } else {
                assert(s[i] == s.subrange(15, 20)[i - 15] && e[i] == e.subrange(15, 20)[i - 15]);
            }
        }
        assert(s =~= e);
    }
}

/// Base62id input decodes to a UUID exactly when it is that UUID's
/// spelling.
pub proof fn law_base62id_canonical(s: Seq<u8>, n: nat)
    requires
        n < uuid_limit(),
    ensures
        spec_from_base62id(s) == Ok::<nat, DecodeError>(n) <==> s == spec_to_base62id(n),
{
    crate::base62id::law_base62id_round_trip(n);
    crate::base62id::lemma_base62id_shape(n);
    lemma_ascii_utf8(spec_to_base62id(n));
    if spec_from_base62id(s) == Ok::<nat, DecodeError>(n) {
        let a = Alphabet::Base62Sort;
        let limit = pow(256, 17) as nat;
        crate::integer_base::lemma_read_integer_digits(a, s, "base62id", limit, 0);
        let v = crate::integer_base::read_integer(a, s, "base62id", limit, 0).unwrap();
        vstd::arithmetic::div_mod::lemma_fundamental_div_mod(v as int, uuid_limit() as int);
        assert(v == base62id_value(n));
        lemma_spell_back(a, s, "base62id", 0);
        let d = read_digits(a, s, "base62id", 0).unwrap();
        lemma_fixed_of_value(d, 62);
        crate::digits::lemma_base_powers();
        crate::digits::lemma_min_len(v, 62, 22);
        crate::digits::lemma_min_len(v, 62, 21);
        crate::digits::lemma_fixed_is_padded_min(v, 62, 22);
        assert(crate::digits::zeros(0) + min_digits(v, 62) =~= min_digits(v, 62));
    }
}

} // verus!
