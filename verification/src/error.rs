//! The error returned by every decoder, and its human-readable message.

use vstd::prelude::*;

use crate::alphabets::{spell, spell_digits, Alphabet};
use crate::digits::{fixed_digits, fixed_digits_of, lemma_fixed_below, min_digits};
use crate::text::{all_ascii, ascii_text, string_from_ascii};

verus! {

/// Errors returned when parsing a UUID from any text encoding.
///
/// The error carries the encoding name and a small payload so callers can
/// produce diagnostics without parsing error strings.
#[derive(Debug, Clone, PartialEq, Eq, Hash)]
#[non_exhaustive]
pub enum DecodeError {
    /// The input had the wrong length for its declared encoding.
    InvalidLength {
        /// Encoding name, e.g. `"base32"`, `"Z85"`.
        encoding: &'static str,
        /// Required length in bytes.
        expected: usize,
        /// Length actually received.
        got: usize,
    },
    /// The input contained a byte that is not part of the encoding's alphabet.
    InvalidCharacter {
        /// Encoding name.
        encoding: &'static str,
        /// 0-based index of the offending byte in the input.
        position: usize,
        /// The byte itself (may not be valid UTF-8 on its own).
        byte: u8,
    },
    /// The decoded integer would not fit in 128 bits (or in the
    /// 32-bit-per-chunk slot for Z85).
    Overflow {
        /// Encoding name.
        encoding: &'static str,
    },
    /// Trailing pad bits in a fixed-width encoding were non-zero: the
    /// input is corrupt or non-canonical.
    NonCanonicalPadding {
        /// Encoding name.
        encoding: &'static str,
    },
    /// The input is too long to be any valid encoding of a UUID.
    InputTooLong {
        /// Encoding name.
        encoding: &'static str,
        /// Maximum length the encoding accepts.
        max: usize,
        /// Length actually received.
        got: usize,
    },
    /// A constraint specific to the encoding's scheme was violated (e.g.
    /// `NCName` bookend not in `A`–`P`, Base62id sentinel mismatch).
    SchemeViolation {
        /// Encoding name.
        encoding: &'static str,
        /// Human-readable description of the violation.
        reason: &'static str,
    },
    /// `parse(...)` could not autodetect an encoding for the input length.
    AmbiguousLength {
        /// Length of the input.
        got: usize,
    },
}

/// The decimal spelling of `n`, without leading zeros.
pub open spec fn decimal(n: nat) -> Seq<char> {
    ascii_text(min_digits(n, 10).map_values(|d: u8| (0x30 + d) as u8))
}

/// Two lowercase hex digits of `b`.
pub open spec fn hex2(b: u8) -> Seq<char> {
    ascii_text(spell(Alphabet::Base16, fixed_digits(b as nat, 16, 2)))
}

/// How `{:?}` shows the byte `b` as a `char`: quoted, with a backslash
/// before `'` and `\`; bytes that are not graphic ASCII show as U+FFFD.
pub open spec fn debug_char(b: u8) -> Seq<char> {
    if 0x21 <= b <= 0x7e {
        if b == 0x27 || b == 0x5c {
            seq!['\'', '\\', b as char, '\'']
        } else {
            seq!['\'', b as char, '\'']
        }
    } else {
        seq!['\'', '\u{fffd}', '\'']
    }
}

/// The message of an error.
pub open spec fn message(e: DecodeError) -> Seq<char> {
    match e {
        DecodeError::InvalidLength { encoding, expected, got } => encoding@ + ": expected "@
            + decimal(expected as nat) + " characters, got "@ + decimal(got as nat),
        DecodeError::InvalidCharacter { encoding, position, byte } => encoding@
            + ": invalid character "@ + debug_char(byte) + " (0x"@ + hex2(byte)
            + ") at position "@ + decimal(position as nat),
        DecodeError::Overflow { encoding } => encoding@ + ": input overflows 128 bits"@,
        DecodeError::NonCanonicalPadding { encoding } => encoding@
            + ": non-canonical padding (corrupt input)"@,
        DecodeError::InputTooLong { encoding, max, got } => encoding@ + ": input too long ("@
            + decimal(got as nat) + " > "@ + decimal(max as nat) + ")"@,
        DecodeError::SchemeViolation { encoding, reason } => encoding@ + ": "@ + reason@,
        DecodeError::AmbiguousLength { got } => "parse: cannot autodetect encoding for "@
            + decimal(got as nat) + "-character input — call a specific from_* function"@,
    }
}

/// The decimal digits of `n`, most significant first.
fn decimal_digits(n: usize) -> (r: Vec<u8>)
    ensures
        r@ == min_digits(n as nat, 10),
        forall|i: int| 0 <= i < r@.len() ==> #[trigger] r@[i] < 10,
    decreases n,
{
    if n < 10 {
        let mut v: Vec<u8> = Vec::new();
        v.push(n as u8);
        proof {
            assert(v@ =~= seq![n as u8]);
        }
        v
    } else {
        let mut v = decimal_digits(n / 10);
        v.push((n % 10) as u8);
        v
    }
}

/// The decimal spelling of `n`.
fn decimal_text(n: usize) -> (s: String)
    ensures
        s@ == decimal(n as nat),
{
    let d = decimal_digits(n);
    let mut b: Vec<u8> = Vec::new();
    let mut i: usize = 0;
    while i < d.len()
        invariant
            i <= d@.len(),
            forall|j: int| 0 <= j < d@.len() ==> #[trigger] d@[j] < 10,
            b@ =~= d@.take(i as int).map_values(|x: u8| (0x30 + x) as u8),
        decreases d@.len() - i,
    {
        b.push(0x30 + d[i]);
        i += 1;
        assert(d@.take(i as int) =~= d@.take((i - 1) as int).push(d@[i - 1]));
    }
    assert(d@.take(d@.len() as int) =~= d@);
    assert(all_ascii(b@)) by {
        assert forall|j: int| 0 <= j < b@.len() implies (#[trigger] b@[j]) < 0x80 by {
            assert(d@[j] < 10);
        }
    }
    string_from_ascii(b)
}

/// Two lowercase hex digits of `b`.
fn hex2_text(b: u8) -> (s: String)
    ensures
        s@ == hex2(b),
{
    let d = fixed_digits_of(b as u128, 16, 2);
    proof {
        lemma_fixed_below(b as nat, 16, 2);
    }
    let v = spell_digits(Alphabet::Base16, &d);
    string_from_ascii(v)
}

/// How `{:?}` shows the byte `b` as a `char` (see [`debug_char`]).
fn debug_char_text(b: u8) -> (s: String)
    ensures
        s@ == debug_char(b),
{
    if 0x21 <= b && b <= 0x7e {
        let mut v: Vec<u8> = Vec::new();
        v.push(0x27);
        if b == 0x27 || b == 0x5c {
            v.push(0x5c);
        }
        v.push(b);
        v.push(0x27);
        proof {
            if b == 0x27 || b == 0x5c {
                assert(v@ =~= seq![0x27u8, 0x5cu8, b, 0x27u8]);
                assert(ascii_text(v@) =~= seq!['\'', '\\', b as char, '\'']);
            } else {
                assert(v@ =~= seq![0x27u8, b, 0x27u8]);
                assert(ascii_text(v@) =~= seq!['\'', b as char, '\'']);
            }
        }
        string_from_ascii(v)
    } else {
        let s = String::from_str("'\u{fffd}'");
        proof {
            reveal_strlit("'\u{fffd}'");
        }
        s
    }
}

impl DecodeError {
    /// The human-readable message of the error, as the `Display` of the
    /// error shows it (see [`message`]).
    pub fn to_message(&self) -> (s: String)
        ensures
            s@ == message(*self),
    {
        match self {
            DecodeError::InvalidLength { encoding, expected, got } => {
                let mut s = String::from_str(*encoding);
                s.append(": expected ");
                let e = decimal_text(*expected);
                s.append(e.as_str());
                s.append(" characters, got ");
                let g = decimal_text(*got);
                s.append(g.as_str());
                s
            },
            DecodeError::InvalidCharacter { encoding, position, byte } => {
                let mut s = String::from_str(*encoding);
                s.append(": invalid character ");
                let c = debug_char_text(*byte);
                s.append(c.as_str());
                s.append(" (0x");
                let h = hex2_text(*byte);
                s.append(h.as_str());
                s.append(") at position ");
                let p = decimal_text(*position);
                s.append(p.as_str());
                s
            },
            DecodeError::Overflow { encoding } => {
                let mut s = String::from_str(*encoding);
                s.append(": input overflows 128 bits");
                s
            },
            DecodeError::NonCanonicalPadding { encoding } => {
                let mut s = String::from_str(*encoding);
                s.append(": non-canonical padding (corrupt input)");
                s
            },
            DecodeError::InputTooLong { encoding, max, got } => {
                let mut s = String::from_str(*encoding);
                s.append(": input too long (");
                let g = decimal_text(*got);
                s.append(g.as_str());
                s.append(" > ");
                let m = decimal_text(*max);
                s.append(m.as_str());
                s.append(")");
                s
            },
            DecodeError::SchemeViolation { encoding, reason } => {
                let mut s = String::from_str(*encoding);
                s.append(": ");
                s.append(*reason);
                s
            },
            DecodeError::AmbiguousLength { got } => {
                let mut s = String::from_str("parse: cannot autodetect encoding for ");
                let g = decimal_text(*got);
                s.append(g.as_str());
                s.append("-character input — call a specific from_* function");
                s
            },
        }
    }
}

} // verus!
