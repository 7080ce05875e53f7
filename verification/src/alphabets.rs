//! The alphabets of Table 1 of the encoding draft, as maps between digit
//! values and ASCII symbols in both directions.
//!
//! Each alphabet is written as runs of consecutive ASCII characters, so
//! `sym` spells a digit and `val` reads a byte back. Base16, the three
//! Base32 alphabets and Base36 are read case-insensitively (they define a
//! single case); the others are case-sensitive.

use vstd::prelude::*;
use crate::digits::digits_below;
use crate::error::DecodeError;
use crate::text::all_ascii;

verus! {

/// One of the alphabets of Table 1.
#[derive(Clone, Copy, PartialEq, Eq, Structural, Debug)]
pub enum Alphabet {
    /// `0123456789abcdef`
    Base16,
    /// `ABCDEFGHIJKLMNOPQRSTUVWXYZ234567` (RFC 4648 §6)
    Base32Std,
    /// `0123456789ABCDEFGHIJKLMNOPQRSTUV` (RFC 4648 §7)
    Base32Hex,
    /// `0123456789ABCDEFGHJKMNPQRSTVWXYZ` (no I/L/O/U)
    Base32Humans,
    /// `0123456789ABCDEFGHIJKLMNOPQRSTUVWXYZ`
    Base36,
    /// `ABCDEFGHIJKLMNOPQRSTUVWXYZabcdefghijklmnopqrstuvwxyz`
    Base52,
    /// `123456789ABCDEFGHJKLMNPQRSTUVWXYZabcdefghijkmnopqrstuvwxyz`
    Base58Btc,
    /// `ABCDEFGHIJKLMNOPQRSTUVWXYZabcdefghijklmnopqrstuvwxyz0123456789`
    Base62Ieee,
    /// `0123456789ABCDEFGHIJKLMNOPQRSTUVWXYZabcdefghijklmnopqrstuvwxyz`
    Base62Sort,
    /// `ABCDEFGHIJKLMNOPQRSTUVWXYZabcdefghijklmnopqrstuvwxyz0123456789+/`
    Base64Std,
    /// `ABCDEFGHIJKLMNOPQRSTUVWXYZabcdefghijklmnopqrstuvwxyz0123456789-_`
    Base64Url,
    /// `-0123456789ABCDEFGHIJKLMNOPQRSTUVWXYZ_abcdefghijklmnopqrstuvwxyz`
    Base64Sort,
    /// `0123456789abcdefghijklmnopqrstuvwxyzABCDEFGHIJKLMNOPQRSTUVWXYZ.-:+=^!/*?&<>()[]{}@%$#`
    Z85,
}

pub open spec fn is_upper(c: u8) -> bool {
    0x41 <= c <= 0x5a
}

pub open spec fn is_lower(c: u8) -> bool {
    0x61 <= c <= 0x7a
}

pub open spec fn is_digit(c: u8) -> bool {
    0x30 <= c <= 0x39
}

/// ASCII lowercase of `c` (other bytes unchanged).
pub open spec fn to_lower(c: u8) -> u8 {
    if is_upper(c) {
        (c + 0x20) as u8
    } else {
        c
    }
}

/// The Z85 punctuation `.-:+=^!/*?&<>()[]{}@%$#`, digits 62 to 84.
pub open spec fn z85_punct(k: u8) -> u8 {
    if k == 0 {
        0x2e
    } else if k == 1 {
        0x2d
    } else if k == 2 {
        0x3a
    } else if k == 3 {
        0x2b
    } else if k == 4 {
        0x3d
    } else if k == 5 {
        0x5e
    } else if k == 6 {
        0x21
    } else if k == 7 {
        0x2f
    } else if k == 8 {
        0x2a
    } else if k == 9 {
        0x3f
    } else if k == 10 {
        0x26
    } else if k == 11 {
        0x3c
    } else if k == 12 {
        0x3e
    } else if k == 13 {
        0x28
    } else if k == 14 {
        0x29
    } else if k == 15 {
        0x5b
    } else if k == 16 {
        0x5d
    } else if k == 17 {
        0x7b
    } else if k == 18 {
        0x7d
    } else if k == 19 {
        0x40
    } else if k == 20 {
        0x25
    } else if k == 21 {
        0x24
    } else {
        0x23
    }
}

/// Position of `c` in the Z85 punctuation, if it is one of them.
pub open spec fn z85_punct_index(c: u8) -> Option<u8> {
    if c == 0x2e {
        Some(0u8)
    } else if c == 0x2d {
        Some(1u8)
    } else if c == 0x3a {
        Some(2u8)
    } else if c == 0x2b {
        Some(3u8)
    } else if c == 0x3d {
        Some(4u8)
    } else if c == 0x5e {
        Some(5u8)
    } else if c == 0x21 {
        Some(6u8)
    } else if c == 0x2f {
        Some(7u8)
    } else if c == 0x2a {
        Some(8u8)
    } else if c == 0x3f {
        Some(9u8)
    } else if c == 0x26 {
        Some(10u8)
    } else if c == 0x3c {
        Some(11u8)
    } else if c == 0x3e {
        Some(12u8)
    } else if c == 0x28 {
        Some(13u8)
    } else if c == 0x29 {
        Some(14u8)
    } else if c == 0x5b {
        Some(15u8)
    } else if c == 0x5d {
        Some(16u8)
    } else if c == 0x7b {
        Some(17u8)
    } else if c == 0x7d {
        Some(18u8)
    } else if c == 0x40 {
        Some(19u8)
    } else if c == 0x25 {
        Some(20u8)
    } else if c == 0x24 {
        Some(21u8)
    } else if c == 0x23 {
        Some(22u8)
    } else {
        None
    }
}

impl Alphabet {
    /// Number of symbols.
    pub open spec fn size(self) -> nat {
        match self {
            Alphabet::Base16 => 16,
            Alphabet::Base32Std => 32,
            Alphabet::Base32Hex => 32,
            Alphabet::Base32Humans => 32,
            Alphabet::Base36 => 36,
            Alphabet::Base52 => 52,
            Alphabet::Base58Btc => 58,
            Alphabet::Base62Ieee => 62,
            Alphabet::Base62Sort => 62,
            Alphabet::Base64Std => 64,
            Alphabet::Base64Url => 64,
            Alphabet::Base64Sort => 64,
            Alphabet::Z85 => 85,
        }
    }

    /// Whether the decoder also accepts the other ASCII case.
    pub open spec fn folds_case(self) -> bool {
        match self {
            Alphabet::Base16 | Alphabet::Base32Std | Alphabet::Base32Hex | Alphabet::Base32Humans
            | Alphabet::Base36 => true,
            _ => false,
        }
    }

    /// The symbol that spells digit `d` (for `d < size`).
    pub open spec fn sym(self, d: u8) -> u8 {
        match self {
            Alphabet::Base16 => if d < 10 {
                (0x30 + d) as u8
            } else {
                (0x61 + d - 10) as u8
            },
            Alphabet::Base32Std => if d < 26 {
                (0x41 + d) as u8
            } else {
                (0x32 + d - 26) as u8
            },
            Alphabet::Base32Hex | Alphabet::Base36 => if d < 10 {
                (0x30 + d) as u8
            } else {
                (0x41 + d - 10) as u8
            },
            Alphabet::Base32Humans => if d < 10 {
                (0x30 + d) as u8
            } else if d < 18 {
                (0x41 + d - 10) as u8  // A-H
            } else if d < 20 {
                (0x4a + d - 18) as u8  // J-K
            } else if d < 22 {
                (0x4d + d - 20) as u8  // M-N
            } else if d < 27 {
                (0x50 + d - 22) as u8  // P-T
            } else {
                (0x56 + d - 27) as u8  // V-Z
            },
            Alphabet::Base52 => if d < 26 {
                (0x41 + d) as u8
            } else {
                (0x61 + d - 26) as u8
            },
            Alphabet::Base58Btc => if d < 9 {
                (0x31 + d) as u8  // 1-9
            } else if d < 17 {
                (0x41 + d - 9) as u8  // A-H
            } else if d < 22 {
                (0x4a + d - 17) as u8  // J-N
            } else if d < 33 {
                (0x50 + d - 22) as u8  // P-Z
            } else if d < 44 {
                (0x61 + d - 33) as u8  // a-k
            } else {
                (0x6d + d - 44) as u8  // m-z
            },
            Alphabet::Base62Ieee => if d < 26 {
                (0x41 + d) as u8
            } else if d < 52 {
                (0x61 + d - 26) as u8
            } else {
                (0x30 + d - 52) as u8
            },
            Alphabet::Base62Sort => if d < 10 {
                (0x30 + d) as u8
            } else if d < 36 {
                (0x41 + d - 10) as u8
            } else {
                (0x61 + d - 36) as u8
            },
            Alphabet::Base64Std | Alphabet::Base64Url => if d < 26 {
                (0x41 + d) as u8
            } else if d < 52 {
                (0x61 + d - 26) as u8
            } else if d < 62 {
                (0x30 + d - 52) as u8
            } else if d == 62 {
                if self == Alphabet::Base64Std {
                    0x2bu8
                } else {
                    0x2du8
                }
            } else {
                if self == Alphabet::Base64Std {
                    0x2fu8
                } else {
                    0x5fu8
                }
            },
            Alphabet::Base64Sort => if d == 0 {
                0x2du8
            } else if d < 11 {
                (0x30 + d - 1) as u8
            } else if d < 37 {
                (0x41 + d - 11) as u8
            } else if d == 37 {
                0x5fu8
            } else {
                (0x61 + d - 38) as u8
            },
            Alphabet::Z85 => if d < 10 {
                (0x30 + d) as u8
            } else if d < 36 {
                (0x61 + d - 10) as u8
            } else if d < 62 {
                (0x41 + d - 36) as u8
            } else {
                z85_punct((d - 62) as u8)
            },
        }
    }

    /// The digit that byte `c` reads as, if it belongs to the alphabet.
    pub open spec fn val(self, c: u8) -> Option<u8> {
        match self {
            Alphabet::Base16 => if is_digit(c) {
                Some((c - 0x30) as u8)
            } else if 0x61 <= c <= 0x66 {
                Some((c - 0x61 + 10) as u8)
            } else if 0x41 <= c <= 0x46 {
                Some((c - 0x41 + 10) as u8)
            } else {
                None
            },
            Alphabet::Base32Std => if is_upper(c) {
                Some((c - 0x41) as u8)
            } else if is_lower(c) {
                Some((c - 0x61) as u8)
            } else if 0x32 <= c <= 0x37 {
                Some((c - 0x32 + 26) as u8)
            } else {
                None
            },
            Alphabet::Base32Hex => if is_digit(c) {
                Some((c - 0x30) as u8)
            } else if 0x41 <= c <= 0x56 {
                Some((c - 0x41 + 10) as u8)
            } else if 0x61 <= c <= 0x76 {
                Some((c - 0x61 + 10) as u8)
            } else {
                None
            },
            Alphabet::Base32Humans => {
                let u = if is_lower(c) {
                    (c - 0x20) as u8
                } else {
                    c
                };
                if is_digit(u) {
                    Some((u - 0x30) as u8)
                } else if 0x41 <= u <= 0x48 {
                    Some((u - 0x41 + 10) as u8)
                } else if 0x4a <= u <= 0x4b {
                    Some((u - 0x4a + 18) as u8)
                } else if 0x4d <= u <= 0x4e {
                    Some((u - 0x4d + 20) as u8)
                } else if 0x50 <= u <= 0x54 {
                    Some((u - 0x50 + 22) as u8)
                } else if 0x56 <= u <= 0x5a {
                    Some((u - 0x56 + 27) as u8)
                } else {
                    None
                }
            },
            Alphabet::Base36 => if is_digit(c) {
                Some((c - 0x30) as u8)
            } else if is_upper(c) {
                Some((c - 0x41 + 10) as u8)
            } else if is_lower(c) {
                Some((c - 0x61 + 10) as u8)
            } else {
                None
            },
            Alphabet::Base52 => if is_upper(c) {
                Some((c - 0x41) as u8)
            } else if is_lower(c) {
                Some((c - 0x61 + 26) as u8)
            } else {
                None
            },
            Alphabet::Base58Btc => if 0x31 <= c <= 0x39 {
                Some((c - 0x31) as u8)
            } else if 0x41 <= c <= 0x48 {
                Some((c - 0x41 + 9) as u8)
            } else if 0x4a <= c <= 0x4e {
                Some((c - 0x4a + 17) as u8)
            } else if 0x50 <= c <= 0x5a {
                Some((c - 0x50 + 22) as u8)
            } else if 0x61 <= c <= 0x6b {
                Some((c - 0x61 + 33) as u8)
            } else if 0x6d <= c <= 0x7a {
                Some((c - 0x6d + 44) as u8)
            } else {
                None
            },
            Alphabet::Base62Ieee => if is_upper(c) {
                Some((c - 0x41) as u8)
            } else if is_lower(c) {
                Some((c - 0x61 + 26) as u8)
            } else if is_digit(c) {
                Some((c - 0x30 + 52) as u8)
            } else {
                None
            },
            Alphabet::Base62Sort => if is_digit(c) {
                Some((c - 0x30) as u8)
            } else if is_upper(c) {
                Some((c - 0x41 + 10) as u8)
            } else if is_lower(c) {
                Some((c - 0x61 + 36) as u8)
            } else {
                None
            },
            Alphabet::Base64Std | Alphabet::Base64Url => if is_upper(c) {
                Some((c - 0x41) as u8)
            } else if is_lower(c) {
                Some((c - 0x61 + 26) as u8)
            } else if is_digit(c) {
                Some((c - 0x30 + 52) as u8)
            } else if (self == Alphabet::Base64Std && c == 0x2b) || (self == Alphabet::Base64Url
                && c == 0x2d) {
                Some(62u8)
            } else if (self == Alphabet::Base64Std && c == 0x2f) || (self == Alphabet::Base64Url
                && c == 0x5f) {
                Some(63u8)
            } else {
                None
            },
            Alphabet::Base64Sort => if c == 0x2d {
                Some(0u8)
            } else if is_digit(c) {
                Some((c - 0x30 + 1) as u8)
            } else if is_upper(c) {
                Some((c - 0x41 + 11) as u8)
            } else if c == 0x5f {
                Some(37u8)
            } else if is_lower(c) {
                Some((c - 0x61 + 38) as u8)
            } else {
                None
            },
            Alphabet::Z85 => if is_digit(c) {
                Some((c - 0x30) as u8)
            } else if is_lower(c) {
                Some((c - 0x61 + 10) as u8)
            } else if is_upper(c) {
                Some((c - 0x41 + 36) as u8)
            } else {
                match z85_punct_index(c) {
                    Some(k) => Some((k + 62) as u8),
                    None => None,
                }
            },
        }
    }

    /// The number of symbols, as a machine integer.
    pub fn base(&self) -> (b: u32)
        ensures
            b as nat == self.size(),
    {
        match self {
            Alphabet::Base16 => 16,
            Alphabet::Base32Std => 32,
            Alphabet::Base32Hex => 32,
            Alphabet::Base32Humans => 32,
            Alphabet::Base36 => 36,
            Alphabet::Base52 => 52,
            Alphabet::Base58Btc => 58,
            Alphabet::Base62Ieee => 62,
            Alphabet::Base62Sort => 62,
            Alphabet::Base64Std => 64,
            Alphabet::Base64Url => 64,
            Alphabet::Base64Sort => 64,
            Alphabet::Z85 => 85,
        }
    }
}

/// Every symbol reads back as its digit, is printable ASCII, and (for
/// the case-folding alphabets) is not a lowercase letter unless the
/// alphabet is Base16, whose canonical case is lowercase.
pub proof fn lemma_sym_val(a: Alphabet, d: u8)
    requires
        (d as nat) < a.size(),
    ensures
        a.val(a.sym(d)) == Some(d),
        0x21 <= a.sym(d) < 0x7f,
{
    if a == Alphabet::Z85 && d >= 62 {
        let k = (d - 62) as u8;
        assert(z85_punct_index(z85_punct(k)) == Some(k));
    }
}

/// A byte that reads as digit `d` is the symbol of `d`, or, in a
/// case-folding alphabet, that symbol in the other case.
pub proof fn lemma_val_sym(a: Alphabet, c: u8)
    requires
        a.val(c) is Some,
    ensures
        (a.val(c).unwrap() as nat) < a.size(),
        a.sym(a.val(c).unwrap()) == c || (a.folds_case() && to_lower(a.sym(a.val(c).unwrap()))
            == to_lower(c) && is_upper(c) != is_upper(a.sym(a.val(c).unwrap()))),
{
    if a == Alphabet::Z85 && !is_digit(c) && !is_lower(c) && !is_upper(c) {
        let k = z85_punct_index(c).unwrap();
        assert(z85_punct(k) == c);
    }
}


fn z85_punct_of(k: u8) -> (c: u8)
    ensures
        c == z85_punct(k),
{
    if k == 0 {
        0x2e
    } else if k == 1 {
        0x2d
    } else if k == 2 {
        0x3a
    } else if k == 3 {
        0x2b
    } else if k == 4 {
        0x3d
    } else if k == 5 {
        0x5e
    } else if k == 6 {
        0x21
    } else if k == 7 {
        0x2f
    } else if k == 8 {
        0x2a
    } else if k == 9 {
        0x3f
    } else if k == 10 {
        0x26
    } else if k == 11 {
        0x3c
    } else if k == 12 {
        0x3e
    } else if k == 13 {
        0x28
    } else if k == 14 {
        0x29
    } else if k == 15 {
        0x5b
    } else if k == 16 {
        0x5d
    } else if k == 17 {
        0x7b
    } else if k == 18 {
        0x7d
    } else if k == 19 {
        0x40
    } else if k == 20 {
        0x25
    } else if k == 21 {
        0x24
    } else {
        0x23
    }
}

fn z85_punct_index_of(c: u8) -> (k: Option<u8>)
    ensures
        k == z85_punct_index(c),
{
    if c == 0x2e {
        Some(0u8)
    } else if c == 0x2d {
        Some(1u8)
    } else if c == 0x3a {
        Some(2u8)
    } else if c == 0x2b {
        Some(3u8)
    } else if c == 0x3d {
        Some(4u8)
    } else if c == 0x5e {
        Some(5u8)
    } else if c == 0x21 {
        Some(6u8)
    } else if c == 0x2f {
        Some(7u8)
    } else if c == 0x2a {
        Some(8u8)
    } else if c == 0x3f {
        Some(9u8)
    } else if c == 0x26 {
        Some(10u8)
    } else if c == 0x3c {
        Some(11u8)
    } else if c == 0x3e {
        Some(12u8)
    } else if c == 0x28 {
        Some(13u8)
    } else if c == 0x29 {
        Some(14u8)
    } else if c == 0x5b {
        Some(15u8)
    } else if c == 0x5d {
        Some(16u8)
    } else if c == 0x7b {
        Some(17u8)
    } else if c == 0x7d {
        Some(18u8)
    } else if c == 0x40 {
        Some(19u8)
    } else if c == 0x25 {
        Some(20u8)
    } else if c == 0x24 {
        Some(21u8)
    } else if c == 0x23 {
        Some(22u8)
    } else {
        None
    }
}

impl Alphabet {
    /// The symbol that spells digit `d`.
    pub fn symbol(&self, d: u8) -> (c: u8)
        requires
            (d as nat) < self.size(),
        ensures
            c == self.sym(d),
    {
        match *self {
            Alphabet::Base16 => if d < 10 {
                (0x30 + d) as u8
            } else {
                (0x61 + d - 10) as u8
            },
            Alphabet::Base32Std => if d < 26 {
                (0x41 + d) as u8
            } else {
                (0x32 + d - 26) as u8
            },
            Alphabet::Base32Hex | Alphabet::Base36 => if d < 10 {
                (0x30 + d) as u8
            } else {
                (0x41 + d - 10) as u8
            },
            Alphabet::Base32Humans => if d < 10 {
                (0x30 + d) as u8
            } else if d < 18 {
                (0x41 + d - 10) as u8  // A-H
            } else if d < 20 {
                (0x4a + d - 18) as u8  // J-K
            } else if d < 22 {
                (0x4d + d - 20) as u8  // M-N
            } else if d < 27 {
                (0x50 + d - 22) as u8  // P-T
            } else {
                (0x56 + d - 27) as u8  // V-Z
            },
            Alphabet::Base52 => if d < 26 {
                (0x41 + d) as u8
            } else {
                (0x61 + d - 26) as u8
            },
            Alphabet::Base58Btc => if d < 9 {
                (0x31 + d) as u8  // 1-9
            } else if d < 17 {
                (0x41 + d - 9) as u8  // A-H
            } else if d < 22 {
                (0x4a + d - 17) as u8  // J-N
            } else if d < 33 {
                (0x50 + d - 22) as u8  // P-Z
            } else if d < 44 {
                (0x61 + d - 33) as u8  // a-k
            } else {
                (0x6d + d - 44) as u8  // m-z
            },
            Alphabet::Base62Ieee => if d < 26 {
                (0x41 + d) as u8
            } else if d < 52 {
                (0x61 + d - 26) as u8
            } else {
                (0x30 + d - 52) as u8
            },
            Alphabet::Base62Sort => if d < 10 {
                (0x30 + d) as u8
            } else if d < 36 {
                (0x41 + d - 10) as u8
            } else {
                (0x61 + d - 36) as u8
            },
            Alphabet::Base64Std | Alphabet::Base64Url => if d < 26 {
                (0x41 + d) as u8
            } else if d < 52 {
                (0x61 + d - 26) as u8
            } else if d < 62 {
                (0x30 + d - 52) as u8
            } else if d == 62 {
                if matches!(self, Alphabet::Base64Std) {
                    0x2bu8
                } else {
                    0x2du8
                }
            } else {
                if matches!(self, Alphabet::Base64Std) {
                    0x2fu8
                } else {
                    0x5fu8
                }
            },
            Alphabet::Base64Sort => if d == 0 {
                0x2du8
            } else if d < 11 {
                (0x30 + d - 1) as u8
            } else if d < 37 {
                (0x41 + d - 11) as u8
            } else if d == 37 {
                0x5fu8
            } else {
                (0x61 + d - 38) as u8
            },
            Alphabet::Z85 => if d < 10 {
                (0x30 + d) as u8
            } else if d < 36 {
                (0x61 + d - 10) as u8
            } else if d < 62 {
                (0x41 + d - 36) as u8
            } else {
                z85_punct_of(d - 62)
            },
        }
    }

    /// The digit that byte `c` reads as, if any.
    pub fn value_of(&self, c: u8) -> (r: Option<u8>)
        ensures
            r == self.val(c),
    {
        match *self {
            Alphabet::Base16 => if (0x30 <= c && c <= 0x39) {
                Some((c - 0x30) as u8)
            } else if (0x61 <= c && c <= 0x66) {
                Some((c - 0x61 + 10) as u8)
            } else if (0x41 <= c && c <= 0x46) {
                Some((c - 0x41 + 10) as u8)
            } else {
                None
            },
            Alphabet::Base32Std => if (0x41 <= c && c <= 0x5a) {
                Some((c - 0x41) as u8)
            } else if (0x61 <= c && c <= 0x7a) {
                Some((c - 0x61) as u8)
            } else if (0x32 <= c && c <= 0x37) {
                Some((c - 0x32 + 26) as u8)
            } else {
                None
            },
            Alphabet::Base32Hex => if (0x30 <= c && c <= 0x39) {
                Some((c - 0x30) as u8)
            } else if (0x41 <= c && c <= 0x56) {
                Some((c - 0x41 + 10) as u8)
            } else if (0x61 <= c && c <= 0x76) {
                Some((c - 0x61 + 10) as u8)
            } else {
                None
            },
            Alphabet::Base32Humans => {
                let u = if (0x61 <= c && c <= 0x7a) {
                    (c - 0x20) as u8
                } else {
                    c
                };
                if (0x30 <= u && u <= 0x39) {
                    Some((u - 0x30) as u8)
                } else if (0x41 <= u && u <= 0x48) {
                    Some((u - 0x41 + 10) as u8)
                } else if (0x4a <= u && u <= 0x4b) {
                    Some((u - 0x4a + 18) as u8)
                } else if (0x4d <= u && u <= 0x4e) {
                    Some((u - 0x4d + 20) as u8)
                } else if (0x50 <= u && u <= 0x54) {
                    Some((u - 0x50 + 22) as u8)
                } else if (0x56 <= u && u <= 0x5a) {
                    Some((u - 0x56 + 27) as u8)
                } else {
                    None
                }
            },
            Alphabet::Base36 => if (0x30 <= c && c <= 0x39) {
                Some((c - 0x30) as u8)
            } else if (0x41 <= c && c <= 0x5a) {
                Some((c - 0x41 + 10) as u8)
            } else if (0x61 <= c && c <= 0x7a) {
                Some((c - 0x61 + 10) as u8)
            } else {
                None
            },
            Alphabet::Base52 => if (0x41 <= c && c <= 0x5a) {
                Some((c - 0x41) as u8)
            } else if (0x61 <= c && c <= 0x7a) {
                Some((c - 0x61 + 26) as u8)
            } else {
                None
            },
            Alphabet::Base58Btc => if (0x31 <= c && c <= 0x39) {
                Some((c - 0x31) as u8)
            } else if (0x41 <= c && c <= 0x48) {
                Some((c - 0x41 + 9) as u8)
            } else if (0x4a <= c && c <= 0x4e) {
                Some((c - 0x4a + 17) as u8)
            } else if (0x50 <= c && c <= 0x5a) {
                Some((c - 0x50 + 22) as u8)
            } else if (0x61 <= c && c <= 0x6b) {
                Some((c - 0x61 + 33) as u8)
            } else if (0x6d <= c && c <= 0x7a) {
                Some((c - 0x6d + 44) as u8)
            } else {
                None
            },
            Alphabet::Base62Ieee => if (0x41 <= c && c <= 0x5a) {
                Some((c - 0x41) as u8)
            } else if (0x61 <= c && c <= 0x7a) {
                Some((c - 0x61 + 26) as u8)
            } else if (0x30 <= c && c <= 0x39) {
                Some((c - 0x30 + 52) as u8)
            } else {
                None
            },
            Alphabet::Base62Sort => if (0x30 <= c && c <= 0x39) {
                Some((c - 0x30) as u8)
            } else if (0x41 <= c && c <= 0x5a) {
                Some((c - 0x41 + 10) as u8)
            } else if (0x61 <= c && c <= 0x7a) {
                Some((c - 0x61 + 36) as u8)
            } else {
                None
            },
            Alphabet::Base64Std | Alphabet::Base64Url => if (0x41 <= c && c <= 0x5a) {
                Some((c - 0x41) as u8)
            } else if (0x61 <= c && c <= 0x7a) {
                Some((c - 0x61 + 26) as u8)
            } else if (0x30 <= c && c <= 0x39) {
                Some((c - 0x30 + 52) as u8)
            } else if (matches!(self, Alphabet::Base64Std) && c == 0x2b) || (matches!(self, Alphabet::Base64Url)
                && c == 0x2d) {
                Some(62u8)
            } else if (matches!(self, Alphabet::Base64Std) && c == 0x2f) || (matches!(self, Alphabet::Base64Url)
                && c == 0x5f) {
                Some(63u8)
            } else {
                None
            },
            Alphabet::Base64Sort => if c == 0x2d {
                Some(0u8)
            } else if (0x30 <= c && c <= 0x39) {
                Some((c - 0x30 + 1) as u8)
            } else if (0x41 <= c && c <= 0x5a) {
                Some((c - 0x41 + 11) as u8)
            } else if c == 0x5f {
                Some(37u8)
            } else if (0x61 <= c && c <= 0x7a) {
                Some((c - 0x61 + 38) as u8)
            } else {
                None
            },
            Alphabet::Z85 => if (0x30 <= c && c <= 0x39) {
                Some((c - 0x30) as u8)
            } else if (0x61 <= c && c <= 0x7a) {
                Some((c - 0x61 + 10) as u8)
            } else if (0x41 <= c && c <= 0x5a) {
                Some((c - 0x41 + 36) as u8)
            } else {
                match z85_punct_index_of(c) {
                    Some(k) => Some((k + 62) as u8),
                    None => None,
                }
            },
        }
    }
}

/// The symbols that spell the digit string `d`.
pub open spec fn spell(a: Alphabet, d: Seq<u8>) -> Seq<u8> {
    d.map_values(|x: u8| a.sym(x))
}

/// Spelled digits are printable ASCII.
pub proof fn lemma_spell_ascii(a: Alphabet, d: Seq<u8>)
    requires
        digits_below(d, a.size()),
    ensures
        all_ascii(spell(a, d)),
        spell(a, d).len() == d.len(),
{
    assert forall|i: int| 0 <= i < spell(a, d).len() implies (#[trigger] spell(a, d)[i]) < 0x80 by {
        lemma_sym_val(a, d[i]);
    }
}

/// Spells a digit string with the symbols of `a`.
pub fn spell_digits(a: Alphabet, d: &Vec<u8>) -> (r: Vec<u8>)
    requires
        digits_below(d@, a.size()),
    ensures
        r@ == spell(a, d@),
        all_ascii(r@),
{
    let mut r: Vec<u8> = Vec::new();
    let mut i: usize = 0;
    while i < d.len()
        invariant
            i <= d.len(),
            digits_below(d@, a.size()),
            r@ =~= spell(a, d@.take(i as int)),
        decreases d.len() - i,
    {
        assert((d@[i as int] as nat) < a.size());
        let c = a.symbol(d[i]);
        r.push(c);
        i = i + 1;
        assert(d@.take(i as int) =~= d@.take((i - 1) as int).push(d@[i - 1]));
    }
    assert(d@.take(d.len() as int) =~= d@);
    proof {
        lemma_spell_ascii(a, d@);
    }
    r
}

/// Reads every byte of `s` as a digit of `a`. The first byte that is not
/// a symbol stops the reading; it is reported at index `offset + i`, its
/// index in the whole input.
pub open spec fn read_digits(a: Alphabet, s: Seq<u8>, enc: &'static str, offset: nat) -> Result<
    Seq<u8>,
    DecodeError,
>
    decreases s.len(),
{
    if s.len() == 0 {
        Ok(Seq::empty())
    } else {
        match read_digits(a, s.drop_last(), enc, offset) {
            Err(e) => Err(e),
            Ok(d) => match a.val(s.last()) {
                None => Err(
                    DecodeError::InvalidCharacter {
                        encoding: enc,
                        position: (offset + s.len() - 1) as usize,
                        byte: s.last(),
                    },
                ),
                Some(x) => Ok(d.push(x)),
            },
        }
    }
}

/// What a successful reading gives: one digit per byte, each the value of
/// its byte.
pub proof fn lemma_read_digits_ok(a: Alphabet, s: Seq<u8>, enc: &'static str, offset: nat)
    requires
        read_digits(a, s, enc, offset) is Ok,
    ensures
        ({
            let d = read_digits(a, s, enc, offset).unwrap();
            &&& d.len() == s.len()
            &&& digits_below(d, a.size())
            &&& forall|i: int| 0 <= i < s.len() ==> a.val(#[trigger] s[i]) == Some(d[i])
        }),
    decreases s.len(),
{
    if s.len() > 0 {
        lemma_read_digits_ok(a, s.drop_last(), enc, offset);
        let d = read_digits(a, s, enc, offset).unwrap();
        let p = read_digits(a, s.drop_last(), enc, offset).unwrap();
        lemma_val_sym(a, s.last());
        assert forall|i: int| 0 <= i < s.len() implies a.val(#[trigger] s[i]) == Some(d[i]) by {
            if i < s.len() - 1 {
                assert(s[i] == s.drop_last()[i]);
            }
        }
        assert forall|i: int| 0 <= i < d.len() implies (#[trigger] d[i] as nat) < a.size() by {
            if i < d.len() - 1 {
                assert(d[i] == p[i]);
            }
        }
    }
}

/// Reading a spelled digit string gives the digits back.
pub proof fn lemma_read_spell(a: Alphabet, d: Seq<u8>, enc: &'static str, offset: nat)
    requires
        digits_below(d, a.size()),
    ensures
        read_digits(a, spell(a, d), enc, offset) == Ok::<Seq<u8>, DecodeError>(d),
    decreases d.len(),
{
    if d.len() > 0 {
        let p = d.drop_last();
        assert(digits_below(p, a.size())) by {
            assert forall|i: int| 0 <= i < p.len() implies (#[trigger] p[i] as nat) < a.size() by {
                assert(p[i] == d[i]);
            }
        }
        lemma_read_spell(a, p, enc, offset);
        assert(spell(a, d).drop_last() =~= spell(a, p));
        assert((d.last() as nat) < a.size()) by {
            assert((d[d.len() - 1] as nat) < a.size());
        }
        lemma_sym_val(a, d.last());
        assert(spell(a, d).last() == a.sym(d.last()));
        assert(p.push(d.last()) =~= d);
    } else {
        assert(d =~= Seq::<u8>::empty());
        assert(spell(a, d) =~= Seq::<u8>::empty());
    }
}

/// A reading succeeds exactly when every byte is a symbol; a failed
/// reading names the first byte that is not one.
pub proof fn lemma_read_digits_err(a: Alphabet, s: Seq<u8>, enc: &'static str, offset: nat)
    ensures
        (read_digits(a, s, enc, offset) is Ok) <==> (forall|i: int|
            0 <= i < s.len() ==> a.val(#[trigger] s[i]) is Some),
    decreases s.len(),
{
    if s.len() > 0 {
        lemma_read_digits_err(a, s.drop_last(), enc, offset);
        if read_digits(a, s.drop_last(), enc, offset) is Ok {
            if a.val(s.last()) is Some {
                assert forall|i: int| 0 <= i < s.len() implies a.val(#[trigger] s[i]) is Some by {
                    if i < s.len() - 1 {
                        assert(s[i] == s.drop_last()[i]);
                    }
                }
            }
        } else {
            let i = choose|i: int| 0 <= i < s.drop_last().len() && !(a.val(s.drop_last()[i]) is Some);
            assert(s[i] == s.drop_last()[i]);
        }
    }
}

/// Reads the digits of `s` with alphabet `a` (see [`read_digits`]).
pub fn read_digits_of(a: Alphabet, s: &[u8], enc: &'static str, offset: usize) -> (r: Result<
    Vec<u8>,
    DecodeError,
>)
    requires
        offset + s@.len() <= usize::MAX,
    ensures
        match r {
            Ok(v) => read_digits(a, s@, enc, offset as nat) == Ok::<Seq<u8>, DecodeError>(v@),
            Err(e) => read_digits(a, s@, enc, offset as nat) == Err::<Seq<u8>, DecodeError>(e),
        },
{
    let mut out: Vec<u8> = Vec::new();
    let mut i: usize = 0;
    while i < s.len()
        invariant
            i <= s@.len(),
            offset + s@.len() <= usize::MAX,
            read_digits(a, s@.take(i as int), enc, offset as nat) == Ok::<Seq<u8>, DecodeError>(
                out@,
            ),
        decreases s@.len() - i,
    {
        let c = s[i];
        assert(s@.take((i + 1) as int).drop_last() =~= s@.take(i as int));
        match a.value_of(c) {
            None => {
                proof {
                    lemma_read_digits_prefix_err(a, s@, enc, offset as nat, (i + 1) as int);
                }
                return Err(DecodeError::InvalidCharacter { encoding: enc, position: offset + i, byte: c });
            },
            Some(x) => {
                out.push(x);
            },
        }
        i = i + 1;
    }
    assert(s@.take(s@.len() as int) =~= s@);
    Ok(out)
}

/// A reading that fails on a prefix fails the same way on the whole.
pub proof fn lemma_read_digits_prefix_err(
    a: Alphabet,
    s: Seq<u8>,
    enc: &'static str,
    offset: nat,
    k: int,
)
    requires
        0 <= k <= s.len(),
        read_digits(a, s.take(k), enc, offset) is Err,
    ensures
        read_digits(a, s, enc, offset) == read_digits(a, s.take(k), enc, offset),
    decreases s.len() - k,
{
    if k < s.len() {
        assert(s.take(k + 1).drop_last() =~= s.take(k));
        lemma_read_digits_prefix_err(a, s, enc, offset, k + 1);
    } else {
        assert(s.take(k) =~= s);
    }
}

/// Reading digits succeeds with `d` when every byte reads as its digit of `d`.
pub proof fn lemma_read_digits_exact(a: Alphabet, s: Seq<u8>, d: Seq<u8>, enc: &'static str, offset: nat)
    requires
        s.len() == d.len(),
        forall|i: int| 0 <= i < s.len() ==> a.val(#[trigger] s[i]) == Some(d[i]),
    ensures
        read_digits(a, s, enc, offset) == Ok::<Seq<u8>, DecodeError>(d),
{
    lemma_read_digits_err(a, s, enc, offset);
    lemma_read_digits_ok(a, s, enc, offset);
    let r = read_digits(a, s, enc, offset).unwrap();
    assert forall|i: int| 0 <= i < s.len() implies r[i] == d[i] by {
        assert(a.val(s[i]) == Some(r[i]));
    }
    assert(r =~= d);
}

} // verus!
