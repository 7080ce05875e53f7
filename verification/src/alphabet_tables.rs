//! The alphabets written out symbol by symbol, as the encoding tables
//! list them, and the law that ties the digit/symbol maps to them.

use vstd::prelude::*;

use crate::alphabets::{to_lower, Alphabet};

verus! {

/// The symbols of each alphabet, in digit order, as its table lists them.
pub open spec fn table(a: Alphabet) -> Seq<u8> {
    match a {
        // "0123456789abcdef"
        Alphabet::Base16 => seq![
            0x30, 0x31, 0x32, 0x33, 0x34, 0x35, 0x36, 0x37, 0x38, 0x39, 0x61, 0x62, 0x63, 0x64,
            0x65, 0x66
        ],
        // "ABCDEFGHIJKLMNOPQRSTUVWXYZ234567"
        Alphabet::Base32Std => seq![
            0x41, 0x42, 0x43, 0x44, 0x45, 0x46, 0x47, 0x48, 0x49, 0x4a, 0x4b, 0x4c, 0x4d, 0x4e,
            0x4f, 0x50, 0x51, 0x52, 0x53, 0x54, 0x55, 0x56, 0x57, 0x58, 0x59, 0x5a, 0x32, 0x33,
            0x34, 0x35, 0x36, 0x37
        ],
        // "0123456789ABCDEFGHIJKLMNOPQRSTUV"
        Alphabet::Base32Hex => seq![
            0x30, 0x31, 0x32, 0x33, 0x34, 0x35, 0x36, 0x37, 0x38, 0x39, 0x41, 0x42, 0x43, 0x44,
            0x45, 0x46, 0x47, 0x48, 0x49, 0x4a, 0x4b, 0x4c, 0x4d, 0x4e, 0x4f, 0x50, 0x51, 0x52,
            0x53, 0x54, 0x55, 0x56
        ],
        // "0123456789ABCDEFGHJKMNPQRSTVWXYZ"
        Alphabet::Base32Humans => seq![
            0x30, 0x31, 0x32, 0x33, 0x34, 0x35, 0x36, 0x37, 0x38, 0x39, 0x41, 0x42, 0x43, 0x44,
            0x45, 0x46, 0x47, 0x48, 0x4a, 0x4b, 0x4d, 0x4e, 0x50, 0x51, 0x52, 0x53, 0x54, 0x56,
            0x57, 0x58, 0x59, 0x5a
        ],
        // "0123456789ABCDEFGHIJKLMNOPQRSTUVWXYZ"
        Alphabet::Base36 => seq![
            0x30, 0x31, 0x32, 0x33, 0x34, 0x35, 0x36, 0x37, 0x38, 0x39, 0x41, 0x42, 0x43, 0x44,
            0x45, 0x46, 0x47, 0x48, 0x49, 0x4a, 0x4b, 0x4c, 0x4d, 0x4e, 0x4f, 0x50, 0x51, 0x52,
            0x53, 0x54, 0x55, 0x56, 0x57, 0x58, 0x59, 0x5a
        ],
        // "ABCDEFGHIJKLMNOPQRSTUVWXYZabcdefghijklmnopqrstuvwxyz"
        Alphabet::Base52 => seq![
            0x41, 0x42, 0x43, 0x44, 0x45, 0x46, 0x47, 0x48, 0x49, 0x4a, 0x4b, 0x4c, 0x4d, 0x4e,
            0x4f, 0x50, 0x51, 0x52, 0x53, 0x54, 0x55, 0x56, 0x57, 0x58, 0x59, 0x5a, 0x61, 0x62,
            0x63, 0x64, 0x65, 0x66, 0x67, 0x68, 0x69, 0x6a, 0x6b, 0x6c, 0x6d, 0x6e, 0x6f, 0x70,
            0x71, 0x72, 0x73, 0x74, 0x75, 0x76, 0x77, 0x78, 0x79, 0x7a
        ],
        // "123456789ABCDEFGHJKLMNPQRSTUVWXYZabcdefghijkmnopqrstuvwxyz"
        Alphabet::Base58Btc => seq![
            0x31, 0x32, 0x33, 0x34, 0x35, 0x36, 0x37, 0x38, 0x39, 0x41, 0x42, 0x43, 0x44, 0x45,
            0x46, 0x47, 0x48, 0x4a, 0x4b, 0x4c, 0x4d, 0x4e, 0x50, 0x51, 0x52, 0x53, 0x54, 0x55,
            0x56, 0x57, 0x58, 0x59, 0x5a, 0x61, 0x62, 0x63, 0x64, 0x65, 0x66, 0x67, 0x68, 0x69,
            0x6a, 0x6b, 0x6d, 0x6e, 0x6f, 0x70, 0x71, 0x72, 0x73, 0x74, 0x75, 0x76, 0x77, 0x78,
            0x79, 0x7a
        ],
        // "ABCDEFGHIJKLMNOPQRSTUVWXYZabcdefghijklmnopqrstuvwxyz0123456789"
        Alphabet::Base62Ieee => seq![
            0x41, 0x42, 0x43, 0x44, 0x45, 0x46, 0x47, 0x48, 0x49, 0x4a, 0x4b, 0x4c, 0x4d, 0x4e,
            0x4f, 0x50, 0x51, 0x52, 0x53, 0x54, 0x55, 0x56, 0x57, 0x58, 0x59, 0x5a, 0x61, 0x62,
            0x63, 0x64, 0x65, 0x66, 0x67, 0x68, 0x69, 0x6a, 0x6b, 0x6c, 0x6d, 0x6e, 0x6f, 0x70,
            0x71, 0x72, 0x73, 0x74, 0x75, 0x76, 0x77, 0x78, 0x79, 0x7a, 0x30, 0x31, 0x32, 0x33,
            0x34, 0x35, 0x36, 0x37, 0x38, 0x39
        ],
        // "0123456789ABCDEFGHIJKLMNOPQRSTUVWXYZabcdefghijklmnopqrstuvwxyz"
        Alphabet::Base62Sort => seq![
            0x30, 0x31, 0x32, 0x33, 0x34, 0x35, 0x36, 0x37, 0x38, 0x39, 0x41, 0x42, 0x43, 0x44,
            0x45, 0x46, 0x47, 0x48, 0x49, 0x4a, 0x4b, 0x4c, 0x4d, 0x4e, 0x4f, 0x50, 0x51, 0x52,
            0x53, 0x54, 0x55, 0x56, 0x57, 0x58, 0x59, 0x5a, 0x61, 0x62, 0x63, 0x64, 0x65, 0x66,
            0x67, 0x68, 0x69, 0x6a, 0x6b, 0x6c, 0x6d, 0x6e, 0x6f, 0x70, 0x71, 0x72, 0x73, 0x74,
            0x75, 0x76, 0x77, 0x78, 0x79, 0x7a
        ],
        // "ABCDEFGHIJKLMNOPQRSTUVWXYZabcdefghijklmnopqrstuvwxyz0123456789+/"
        Alphabet::Base64Std => seq![
            0x41, 0x42, 0x43, 0x44, 0x45, 0x46, 0x47, 0x48, 0x49, 0x4a, 0x4b, 0x4c, 0x4d, 0x4e,
            0x4f, 0x50, 0x51, 0x52, 0x53, 0x54, 0x55, 0x56, 0x57, 0x58, 0x59, 0x5a, 0x61, 0x62,
            0x63, 0x64, 0x65, 0x66, 0x67, 0x68, 0x69, 0x6a, 0x6b, 0x6c, 0x6d, 0x6e, 0x6f, 0x70,
            0x71, 0x72, 0x73, 0x74, 0x75, 0x76, 0x77, 0x78, 0x79, 0x7a, 0x30, 0x31, 0x32, 0x33,
            0x34, 0x35, 0x36, 0x37, 0x38, 0x39, 0x2b, 0x2f
        ],
        // "ABCDEFGHIJKLMNOPQRSTUVWXYZabcdefghijklmnopqrstuvwxyz0123456789-_"
        Alphabet::Base64Url => seq![
            0x41, 0x42, 0x43, 0x44, 0x45, 0x46, 0x47, 0x48, 0x49, 0x4a, 0x4b, 0x4c, 0x4d, 0x4e,
            0x4f, 0x50, 0x51, 0x52, 0x53, 0x54, 0x55, 0x56, 0x57, 0x58, 0x59, 0x5a, 0x61, 0x62,
            0x63, 0x64, 0x65, 0x66, 0x67, 0x68, 0x69, 0x6a, 0x6b, 0x6c, 0x6d, 0x6e, 0x6f, 0x70,
            0x71, 0x72, 0x73, 0x74, 0x75, 0x76, 0x77, 0x78, 0x79, 0x7a, 0x30, 0x31, 0x32, 0x33,
            0x34, 0x35, 0x36, 0x37, 0x38, 0x39, 0x2d, 0x5f
        ],
        // "-0123456789ABCDEFGHIJKLMNOPQRSTUVWXYZ_abcdefghijklmnopqrstuvwxyz"
        Alphabet::Base64Sort => seq![
            0x2d, 0x30, 0x31, 0x32, 0x33, 0x34, 0x35, 0x36, 0x37, 0x38, 0x39, 0x41, 0x42, 0x43,
            0x44, 0x45, 0x46, 0x47, 0x48, 0x49, 0x4a, 0x4b, 0x4c, 0x4d, 0x4e, 0x4f, 0x50, 0x51,
            0x52, 0x53, 0x54, 0x55, 0x56, 0x57, 0x58, 0x59, 0x5a, 0x5f, 0x61, 0x62, 0x63, 0x64,
            0x65, 0x66, 0x67, 0x68, 0x69, 0x6a, 0x6b, 0x6c, 0x6d, 0x6e, 0x6f, 0x70, 0x71, 0x72,
            0x73, 0x74, 0x75, 0x76, 0x77, 0x78, 0x79, 0x7a
        ],
        // "0123456789abcdefghijklmnopqrstuvwxyzABCDEFGHIJKLMNOPQRSTUVWXYZ.-:+=^!/*?&<>()[]{}@%$#"
        Alphabet::Z85 => seq![
            0x30, 0x31, 0x32, 0x33, 0x34, 0x35, 0x36, 0x37, 0x38, 0x39, 0x61, 0x62, 0x63, 0x64,
            0x65, 0x66, 0x67, 0x68, 0x69, 0x6a, 0x6b, 0x6c, 0x6d, 0x6e, 0x6f, 0x70, 0x71, 0x72,
            0x73, 0x74, 0x75, 0x76, 0x77, 0x78, 0x79, 0x7a, 0x41, 0x42, 0x43, 0x44, 0x45, 0x46,
            0x47, 0x48, 0x49, 0x4a, 0x4b, 0x4c, 0x4d, 0x4e, 0x4f, 0x50, 0x51, 0x52, 0x53, 0x54,
            0x55, 0x56, 0x57, 0x58, 0x59, 0x5a, 0x2e, 0x2d, 0x3a, 0x2b, 0x3d, 0x5e, 0x21, 0x2f,
            0x2a, 0x3f, 0x26, 0x3c, 0x3e, 0x28, 0x29, 0x5b, 0x5d, 0x7b, 0x7d, 0x40, 0x25, 0x24,
            0x23
        ],
    }
}
/// Digit `d` is spelled by the `d`-th symbol of the table.
proof fn lemma_sym_table(a: Alphabet)
    ensures
        table(a).len() == a.size(),
        forall|d: u8| (d as nat) < a.size() ==> #[trigger] a.sym(d) == table(a)[d as int],
{
}

/// The case-insensitive readers give a byte and its other case one value.
proof fn lemma_val_folds(a: Alphabet, c: u8)
    requires
        a.folds_case(),
    ensures
        a.val(c) == a.val(to_lower(c)),
{
}

/// A byte reads as digit `d` exactly when it is the `d`-th symbol, or that
/// symbol in the other case for a case-insensitive alphabet.
proof fn lemma_val_table(a: Alphabet, c: u8, d: u8)
    requires
        (d as nat) < a.size(),
    ensures
        a.val(c) == Some(d) <==> (c == table(a)[d as int] || (a.folds_case() && to_lower(c)
            == to_lower(table(a)[d as int]))),
{
    lemma_sym_table(a);
    crate::alphabets::lemma_sym_val(a, d);
    if a.val(c) is Some {
        crate::alphabets::lemma_val_sym(a, c);
    }
    if a.folds_case() {
        lemma_val_folds(a, c);
        lemma_val_folds(a, table(a)[d as int]);
    }
}

/// Every alphabet is its table: digit `d` is spelled by the `d`-th symbol
/// of the table; a byte reads as digit `d` exactly when it is that symbol
/// or, for the alphabets read case-insensitively (Base16, the three Base32
/// alphabets and Base36), that symbol in the other letter case; every
/// other byte is not a symbol.
pub proof fn law_alphabet_tables(a: Alphabet)
    ensures
        table(a).len() == a.size(),
        a.folds_case() <==> (a == Alphabet::Base16 || a == Alphabet::Base32Std || a
            == Alphabet::Base32Hex || a == Alphabet::Base32Humans || a == Alphabet::Base36),
        forall|d: u8| (d as nat) < a.size() ==> #[trigger] a.sym(d) == table(a)[d as int],
        forall|d: u8|
            (d as nat) < a.size() ==> #[trigger] a.val(table(a)[d as int]) == Some(d),
        forall|c: u8, d: u8|
            #![trigger a.val(c), table(a)[d as int]]
            (d as nat) < a.size() ==> (a.val(c) == Some(d) <==> (c == table(a)[d as int] || (
            a.folds_case() && to_lower(c) == to_lower(table(a)[d as int])))),
        forall|c: u8| #[trigger] a.val(c) is Some ==> (a.val(c).unwrap() as nat) < a.size(),
{
    lemma_sym_table(a);
    assert forall|d: u8| (d as nat) < a.size() implies #[trigger] a.val(table(a)[d as int])
        == Some(d) by {
        crate::alphabets::lemma_sym_val(a, d);
    }
    assert forall|c: u8| #[trigger] a.val(c) is Some implies (a.val(c).unwrap() as nat)
        < a.size() by {
        crate::alphabets::lemma_val_sym(a, c);
    }
    assert forall|c: u8, d: u8|
        #![trigger a.val(c), table(a)[d as int]]
        (d as nat) < a.size() implies (a.val(c) == Some(d) <==> (c == table(a)[d as int] || (
        a.folds_case() && to_lower(c) == to_lower(table(a)[d as int])))) by {
        lemma_val_table(a, c, d);
    }
}

} // verus!
