//! Case folding on input: the decoders of the alphabets that define a
//! single case (Base16, the three Base32 alphabets and Base36) read a
//! string and any of its case variants alike.

use vstd::prelude::*;

use crate::alphabets::{lemma_read_digits_exact, read_digits, to_lower, Alphabet};
use crate::base16::{
    first_misplaced_dash, read_hex_groups, spec_from_hex, spec_from_hex_dash, spec_from_hex_plain,
};
use crate::base32_64::spec_from_base32;

use crate::integer_base::read_integer;
use crate::integer_encodings::spec_from_integer;

verus! {

/// `s` and `t` differ at most in the case of ASCII letters.
pub open spec fn same_but_case(s: Seq<u8>, t: Seq<u8>) -> bool {
    &&& s.len() == t.len()
    &&& forall|i: int| 0 <= i < s.len() ==> to_lower(#[trigger] s[i]) == to_lower(t[i])
}

/// Case variants stay case variants on a common subrange.
proof fn lemma_same_but_case_subrange(s: Seq<u8>, t: Seq<u8>, lo: int, hi: int)
    requires
        same_but_case(s, t),
        0 <= lo <= hi <= s.len(),
    ensures
        same_but_case(s.subrange(lo, hi), t.subrange(lo, hi)),
{
    assert forall|i: int| 0 <= i < hi - lo implies to_lower(#[trigger] s.subrange(lo, hi)[i])
        == to_lower(t.subrange(lo, hi)[i]) by {
        assert(to_lower(s[i + lo]) == to_lower(t[i + lo]));
    }
}

/// A case-folding alphabet reads case variants alike.
pub proof fn lemma_read_digits_case(a: Alphabet, s: Seq<u8>, t: Seq<u8>, enc: &'static str, offset: nat)
    requires
        a.folds_case(),
        same_but_case(s, t),
        read_digits(a, s, enc, offset) is Ok,
    ensures
        read_digits(a, t, enc, offset) == read_digits(a, s, enc, offset),
{
    crate::alphabets::lemma_read_digits_ok(a, s, enc, offset);
    let d = read_digits(a, s, enc, offset).unwrap();
    assert forall|i: int| 0 <= i < t.len() implies a.val(#[trigger] t[i]) == Some(d[i]) by {
        assert(a.val(s[i]) == Some(d[i]));
        assert(to_lower(s[i]) == to_lower(t[i]));
    }
    lemma_read_digits_exact(a, t, d, enc, offset);
}

/// Reading an integer in a case-folding alphabet gives case variants the
/// same value.
proof fn lemma_read_integer_case(
    a: Alphabet,
    s: Seq<u8>,
    t: Seq<u8>,
    enc: &'static str,
    limit: nat,
    offset: nat,
)
    requires
        a.folds_case(),
        same_but_case(s, t),
        read_integer(a, s, enc, limit, offset) is Ok,
    ensures
        read_integer(a, t, enc, limit, offset) == read_integer(a, s, enc, limit, offset),
    decreases s.len(),
{
    if s.len() > 0 {
        lemma_same_but_case_subrange(s, t, 0, s.len() - 1);
        assert(s.drop_last() =~= s.subrange(0, s.len() - 1));
        assert(t.drop_last() =~= t.subrange(0, t.len() - 1));
        lemma_read_integer_case(a, s.drop_last(), t.drop_last(), enc, limit, offset);
        assert(to_lower(s[s.len() - 1]) == to_lower(t[t.len() - 1]));
        assert(a.val(s.last()) == a.val(t.last()));
    }
}

/// The dash check sees the same dashes in case variants.
proof fn lemma_dashes_case(s: Seq<u8>, t: Seq<u8>)
    requires
        same_but_case(s, t),
    ensures
        first_misplaced_dash(t) == first_misplaced_dash(s),
    decreases s.len(),
{
    if s.len() > 0 {
        lemma_same_but_case_subrange(s, t, 0, s.len() - 1);
        assert(s.drop_last() =~= s.subrange(0, s.len() - 1));
        assert(t.drop_last() =~= t.subrange(0, t.len() - 1));
        lemma_dashes_case(s.drop_last(), t.drop_last());
        assert(to_lower(s[s.len() - 1]) == to_lower(t[t.len() - 1]));
        assert((s.last() == 0x2du8) == (t.last() == 0x2du8));
    }
}

/// Hex (both forms), Base32, Base32hex, Base32 "humans" and Base36 input
/// is case-insensitive: a string that decodes, with its letters in any
/// other case, decodes to the same UUID.
pub proof fn law_case_insensitive_decoders(s: Seq<u8>, t: Seq<u8>)
    requires
        same_but_case(s, t),
    ensures
        spec_from_hex(s) is Ok ==> spec_from_hex(t) == spec_from_hex(s),
        spec_from_hex_plain(s) is Ok ==> spec_from_hex_plain(t) == spec_from_hex_plain(s),
        spec_from_hex_dash(s) is Ok ==> spec_from_hex_dash(t) == spec_from_hex_dash(s),
        spec_from_base32(Alphabet::Base32Std, "base32", s) is Ok ==> spec_from_base32(
            Alphabet::Base32Std,
            "base32",
            t,
        ) == spec_from_base32(Alphabet::Base32Std, "base32", s),
        spec_from_base32(Alphabet::Base32Hex, "base32hex", s) is Ok ==> spec_from_base32(
            Alphabet::Base32Hex,
            "base32hex",
            t,
        ) == spec_from_base32(Alphabet::Base32Hex, "base32hex", s),
        spec_from_base32(Alphabet::Base32Humans, "base32humans", s) is Ok ==> spec_from_base32(
            Alphabet::Base32Humans,
            "base32humans",
            t,
        ) == spec_from_base32(Alphabet::Base32Humans, "base32humans", s),
        spec_from_integer(Alphabet::Base36, "base36", s) is Ok ==> spec_from_integer(
            Alphabet::Base36,
            "base36",
            t,
        ) == spec_from_integer(Alphabet::Base36, "base36", s),
{
    let hx = Alphabet::Base16;
    let name = crate::base16::hex_name();
    if read_digits(hx, s, name, 0) is Ok {
        lemma_read_digits_case(hx, s, t, name, 0);
    }
    if s.len() == 36 {
        lemma_dashes_case(s, t);
        lemma_same_but_case_subrange(s, t, 0, 8);
        lemma_same_but_case_subrange(s, t, 9, 13);
        lemma_same_but_case_subrange(s, t, 14, 18);
        lemma_same_but_case_subrange(s, t, 19, 23);
        lemma_same_but_case_subrange(s, t, 24, 36);
        if read_digits(hx, s.subrange(0, 8), name, 0) is Ok {
            lemma_read_digits_case(hx, s.subrange(0, 8), t.subrange(0, 8), name, 0);
        }
        if read_digits(hx, s.subrange(9, 13), name, 9) is Ok {
            lemma_read_digits_case(hx, s.subrange(9, 13), t.subrange(9, 13), name, 9);
        }
        if read_digits(hx, s.subrange(14, 18), name, 14) is Ok {
            lemma_read_digits_case(hx, s.subrange(14, 18), t.subrange(14, 18), name, 14);
        }
        if read_digits(hx, s.subrange(19, 23), name, 19) is Ok {
            lemma_read_digits_case(hx, s.subrange(19, 23), t.subrange(19, 23), name, 19);
        }
        if read_digits(hx, s.subrange(24, 36), name, 24) is Ok {
            lemma_read_digits_case(hx, s.subrange(24, 36), t.subrange(24, 36), name, 24);
        }
        assert(read_hex_groups(s) is Ok ==> read_hex_groups(t) == read_hex_groups(s));
    }
    if read_digits(Alphabet::Base32Std, s, "base32", 0) is Ok {
        lemma_read_digits_case(Alphabet::Base32Std, s, t, "base32", 0);
    }
    if read_digits(Alphabet::Base32Hex, s, "base32hex", 0) is Ok {
        lemma_read_digits_case(Alphabet::Base32Hex, s, t, "base32hex", 0);
    }
    if read_digits(Alphabet::Base32Humans, s, "base32humans", 0) is Ok {
        lemma_read_digits_case(Alphabet::Base32Humans, s, t, "base32humans", 0);
    }
    if read_integer(Alphabet::Base36, s, "base36", crate::uuid_limit(), 0) is Ok {
        lemma_read_integer_case(Alphabet::Base36, s, t, "base36", crate::uuid_limit(), 0);
    }
}

} // verus!
