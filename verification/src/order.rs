//! Byte-wise order of spellings: the fixed-width encodings whose
//! alphabets run in ASCII order (hex, Base32hex, Base32 "humans", Base64
//! sort) sort like the UUIDs they spell, and so do equal-length Base62
//! sort spellings.

use vstd::prelude::*;

use crate::alphabets::{spell, Alphabet};
use crate::base16::spec_hex;
use crate::base32_64::{lemma_layouts, spec_to_base32, spec_to_base64};
use crate::bitstream::bit_layout;
use crate::digits::{
    digits_below, digits_value, fixed_digits, lemma_fixed_below, lemma_fixed_of_value,
    lemma_fixed_value, lemma_min_value, lemma_pow_step, min_digits,
};
use crate::integer_encodings::spec_to_integer;
use crate::{lemma_uuid_wf, uuid_limit, Uuid};
use vstd::arithmetic::power::pow;

verus! {

/// `a` and `b` agree before index `k` and `a[k] < b[k]`.
pub open spec fn differs_first_at(a: Seq<u8>, b: Seq<u8>, k: int) -> bool {
    &&& 0 <= k < a.len()
    &&& k < b.len()
    &&& a.take(k) == b.take(k)
    &&& a[k] < b[k]
}

/// `a` sorts strictly before `b` byte-wise (the order of `str` and
/// `String`): at the first difference `a` has the smaller byte, or `a` is
/// a proper prefix of `b`.
pub open spec fn lex_lt(a: Seq<u8>, b: Seq<u8>) -> bool {
    (exists|k: int| #[trigger] differs_first_at(a, b, k)) || (a.len() < b.len() && a == b.take(
        a.len() as int,
    ))
}

/// The alphabet's symbols rise with their digits.
pub open spec fn ascending(a: Alphabet) -> bool {
    forall|x: u8, y: u8| x < y && (y as nat) < a.size() ==> #[trigger] a.sym(x) < #[trigger] a.sym(y)
}

/// The alphabets laid out in ASCII order.
pub proof fn lemma_ascending_alphabets()
    ensures
        ascending(Alphabet::Base16),
        ascending(Alphabet::Base32Hex),
        ascending(Alphabet::Base32Humans),
        ascending(Alphabet::Base62Sort),
        ascending(Alphabet::Base64Sort),
{
}

/// Of two digit strings of one length, the smaller value differs first
/// with a smaller digit.
proof fn lemma_lex_of_value(d1: Seq<u8>, d2: Seq<u8>, base: nat)
    requires
        2 <= base <= 256,
        d1.len() == d2.len(),
        digits_below(d1, base),
        digits_below(d2, base),
        digits_value(d1, base) < digits_value(d2, base),
    ensures
        exists|k: int| #[trigger] differs_first_at(d1, d2, k),
    decreases d1.len(),
{
    let len = d1.len();
    if len == 0 {
        assert(false);
    } else {
        let p1 = d1.drop_last();
        let p2 = d2.drop_last();
        assert(digits_below(p1, base)) by {
            assert forall|i: int| 0 <= i < p1.len() implies (#[trigger] p1[i] as nat) < base by {
                assert(p1[i] == d1[i]);
            }
        }
        assert(digits_below(p2, base)) by {
            assert forall|i: int| 0 <= i < p2.len() implies (#[trigger] p2[i] as nat) < base by {
                assert(p2[i] == d2[i]);
            }
        }
        let vp1 = digits_value(p1, base);
        let vp2 = digits_value(p2, base);
        let x1 = d1.last() as nat;
        let x2 = d2.last() as nat;
        assert(x1 < base && x2 < base) by {
            assert((d1[len - 1] as nat) < base);
            assert((d2[len - 1] as nat) < base);
        }
        if vp1 < vp2 {
            lemma_lex_of_value(p1, p2, base);
            let k = choose|k: int| #[trigger] differs_first_at(p1, p2, k);
            assert(d1.take(k) =~= p1.take(k));
            assert(d2.take(k) =~= p2.take(k));
            assert(d1[k] == p1[k] && d2[k] == p2[k]);
            assert(differs_first_at(d1, d2, k));
        } else if vp1 == vp2 {
            lemma_fixed_of_value(p1, base);
            lemma_fixed_of_value(p2, base);
            assert(p1 == p2);
            let k = len - 1;
            assert(d1.take(k) =~= p1);
            assert(d2.take(k) =~= p2);
            assert(differs_first_at(d1, d2, k));
        } else {
            assert(vp1 * base + x1 >= vp2 * base + x2) by (nonlinear_arith)
                requires
                    vp1 >= vp2 + 1,
                    x2 < base,
            ;
            assert(false);
        }
    }
}

/// Of two digit strings of one length that differ first with a smaller
/// digit, the first has the smaller value.
proof fn lemma_value_of_lex(d1: Seq<u8>, d2: Seq<u8>, base: nat, k: int)
    requires
        2 <= base <= 256,
        d1.len() == d2.len(),
        digits_below(d1, base),
        digits_below(d2, base),
        differs_first_at(d1, d2, k),
    ensures
        digits_value(d1, base) < digits_value(d2, base),
{
    if digits_value(d1, base) == digits_value(d2, base) {
        lemma_fixed_of_value(d1, base);
        lemma_fixed_of_value(d2, base);
        assert(d1[k] == d2[k]);
    } else if digits_value(d1, base) > digits_value(d2, base) {
        lemma_lex_of_value(d2, d1, base);
        let j = choose|j: int| #[trigger] differs_first_at(d2, d1, j);
        if j < k {
            assert(d1.take(k)[j] == d2.take(k)[j]);
        } else if k < j {
            assert(d2.take(j)[k] == d1.take(j)[k]);
        }
    }
}

/// Spelling with an ascending alphabet keeps the first difference.
proof fn lemma_lex_spell(a: Alphabet, d1: Seq<u8>, d2: Seq<u8>, k: int)
    requires
        ascending(a),
        digits_below(d1, a.size()),
        digits_below(d2, a.size()),
        differs_first_at(d1, d2, k),
    ensures
        differs_first_at(spell(a, d1), spell(a, d2), k),
{
    assert(spell(a, d1).take(k) =~= spell(a, d1.take(k)));
    assert(spell(a, d2).take(k) =~= spell(a, d2.take(k)));
    assert((d2[k] as nat) < a.size());
    assert(a.sym(d1[k]) < a.sym(d2[k]));
}

/// Spellings of one length in an ascending alphabet sort like their
/// values.
proof fn lemma_spelled_order(a: Alphabet, d1: Seq<u8>, d2: Seq<u8>)
    requires
        ascending(a),
        2 <= a.size() <= 256,
        d1.len() == d2.len(),
        digits_below(d1, a.size()),
        digits_below(d2, a.size()),
        digits_value(d1, a.size()) < digits_value(d2, a.size()),
    ensures
        lex_lt(spell(a, d1), spell(a, d2)),
{
    lemma_lex_of_value(d1, d2, a.size());
    let k = choose|k: int| #[trigger] differs_first_at(d1, d2, k);
    lemma_lex_spell(a, d1, d2, k);
}

/// Bit-stream spellings in an ascending alphabet sort like their values.
proof fn lemma_bits_order(a: Alphabet, m: nat, p: nat, width: nat, n1: nat, n2: nat)
    requires
        ascending(a),
        bit_layout(a, m, p, width),
        n1 < n2 < uuid_limit(),
    ensures
        lex_lt(spell(a, fixed_digits(n1 * p, a.size(), width)), spell(a, fixed_digits(n2 * p, a.size(), width))),
{
    let b = a.size();
    lemma_pow_step(b, (width - 1) as nat);
    let pw = pow(b as int, (width - 1) as nat);
    assert(pow(b as int, width) == pw * m * p) by (nonlinear_arith)
        requires
            pow(b as int, width) == b * pw,
            b == m * p,
    ;
    assert(n1 * p < n2 * p < pow(b as int, width)) by (nonlinear_arith)
        requires
            n1 < n2,
            n2 < pw * m,
            pow(b as int, width) == pw * m * p,
            p >= 1,
    ;
    lemma_fixed_below(n1 * p, b, width);
    lemma_fixed_below(n2 * p, b, width);
    lemma_fixed_value(n1 * p, b, width);
    lemma_fixed_value(n2 * p, b, width);
    vstd::arithmetic::div_mod::lemma_small_mod(n1 * p, pow(b as int, width) as nat);
    vstd::arithmetic::div_mod::lemma_small_mod(n2 * p, pow(b as int, width) as nat);
    lemma_spelled_order(a, fixed_digits(n1 * p, b, width), fixed_digits(n2 * p, b, width));
}

/// The sortable encodings keep the order of UUID values: the smaller
/// UUID's hex, Base32hex, Base32 "humans" and Base64 sort spellings sort
/// first byte-wise, and so does its Base62 sort spelling when both
/// spellings have the same length.
pub proof fn law_sortable_encodings(n1: nat, n2: nat)
    requires
        n1 < n2 < uuid_limit(),
    ensures
        lex_lt(spec_hex(n1), spec_hex(n2)),
        lex_lt(spec_to_base32(Alphabet::Base32Hex, n1), spec_to_base32(Alphabet::Base32Hex, n2)),
        lex_lt(
            spec_to_base32(Alphabet::Base32Humans, n1),
            spec_to_base32(Alphabet::Base32Humans, n2),
        ),
        lex_lt(spec_to_base64(Alphabet::Base64Sort, n1), spec_to_base64(Alphabet::Base64Sort, n2)),
        spec_to_integer(Alphabet::Base62Sort, n1).len() == spec_to_integer(
            Alphabet::Base62Sort,
            n2,
        ).len() ==> lex_lt(
            spec_to_integer(Alphabet::Base62Sort, n1),
            spec_to_integer(Alphabet::Base62Sort, n2),
        ),
{
    lemma_ascending_alphabets();
    lemma_layouts(Alphabet::Base32Hex);
    lemma_layouts(Alphabet::Base32Humans);
    lemma_layouts(Alphabet::Base64Sort);
    lemma_bits_order(Alphabet::Base32Hex, 8, 4, 26, n1, n2);
    lemma_bits_order(Alphabet::Base32Humans, 8, 4, 26, n1, n2);
    lemma_bits_order(Alphabet::Base64Sort, 4, 16, 22, n1, n2);
    // hex: 32 digits of the value itself
    crate::base16::lemma_pow16_32();
    lemma_fixed_below(n1, 16, 32);
    lemma_fixed_below(n2, 16, 32);
    lemma_fixed_value(n1, 16, 32);
    lemma_fixed_value(n2, 16, 32);
    vstd::arithmetic::div_mod::lemma_small_mod(n1, uuid_limit());
    vstd::arithmetic::div_mod::lemma_small_mod(n2, uuid_limit());
    lemma_spelled_order(Alphabet::Base16, fixed_digits(n1, 16, 32), fixed_digits(n2, 16, 32));
    // Base62 sort: minimal spellings of one length
    lemma_min_value(n1, 62);
    lemma_min_value(n2, 62);
    if min_digits(n1, 62).len() == min_digits(n2, 62).len() {
        lemma_spelled_order(Alphabet::Base62Sort, min_digits(n1, 62), min_digits(n2, 62));
    }
}

/// Byte order is numeric order: one UUID's bytes sort before another's
/// exactly when its value is smaller.
pub proof fn law_byte_order(u1: Uuid, u2: Uuid)
    ensures
        lex_lt(u1@, u2@) <==> u1.value() < u2.value(),
{
    lemma_uuid_wf(u1);
    lemma_uuid_wf(u2);
    assert(digits_below(u1@, 256));
    assert(digits_below(u2@, 256));
    if u1.value() < u2.value() {
        lemma_lex_of_value(u1@, u2@, 256);
    }
    if lex_lt(u1@, u2@) {
        let k = choose|k: int| #[trigger] differs_first_at(u1@, u2@, k);
        lemma_value_of_lex(u1@, u2@, 256, k);
    }
}

} // verus!
