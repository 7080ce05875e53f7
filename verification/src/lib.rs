//! # `uuid_altenc` — alternate UUID text encodings
//!
//! Encodes and decodes UUIDs in the alternate text formats of
//! `draft-davis-uuidrev-alt-uuid-encoding-methods-00`: Base16, Base32
//! (standard, hex, "humans"), Base36, Base52, Base58 (Bitcoin), Base62
//! (IEEE and sortable), Base64 (standard, URL-safe, sortable), Z85, the
//! three UUID-NCName variants and Base62id.
//!
//! Every `to_*` encoder is a method of [`Uuid`]; every decoder is a free
//! `from_*` function from `&str` to `Result<Uuid, DecodeError>`. The
//! contracts state each encoding as a function of the UUID's 128-bit
//! value, and each decoder's result, error included, as a function of
//! the input bytes.
use vstd::prelude::*;

mod alphabet_tables;
mod alphabets;
mod autodetect;
mod base16;
mod base32_64;
mod base62id;
mod base85;
mod bitstream;
mod canonical;
mod case_folding;
mod conversions;
mod digits;
mod error;
mod integer_base;
mod integer_encodings;
mod ncname;
mod order;
mod text;

pub use alphabets::Alphabet;
pub use autodetect::parse;
pub use base16::{from_hex, from_hex_dash, from_hex_plain};
pub use base32_64::{
    from_base32, from_base32_hex, from_base32_humans, from_base64, from_base64_sort,
    from_base64_url,
};
pub use base62id::from_base62id;
pub use base85::from_base85_z85;
pub use ncname::{from_ncname_32, from_ncname_58, from_ncname_64};
pub use error::DecodeError;
pub use integer_encodings::{
    from_base36, from_base52, from_base58_btc, from_base62_ieee, from_base62_sort,
};

use digits::{
    bytes_value, digits_below, digits_value, fixed_digits, fixed_digits_of, lemma_fixed_below,
    lemma_fixed_of_value, lemma_fixed_value, lemma_pow256_values, lemma_value_bound,
};

use base16::{encode_dash, encode_plain, spec_hex, spec_hex_dash};
use text::{ascii_text, string_from_ascii};

verus! {

/// A 128-bit UUID stored in network byte order (byte 0 most significant).
///
/// `Ord` follows the bytes, which is the order of `to_u128`.
#[derive(Clone, Copy, Eq, Hash, PartialOrd, Ord, Debug)]
pub struct Uuid {
    bytes: [u8; 16],
}

impl View for Uuid {
    type V = Seq<u8>;

    /// The 16 bytes, most significant first.
    closed spec fn view(&self) -> Seq<u8> {
        self.bytes@
    }
}

/// 2^128: one more than the largest UUID value.
pub open spec fn uuid_limit() -> nat {
    0x1_0000_0000_0000_0000_0000_0000_0000_0000nat
}

impl Uuid {
    /// The UUID as a 128-bit number (big-endian reading of its bytes).
    pub open spec fn value(self) -> nat {
        digits_value(self@, 256)
    }

    /// The version nibble: high half of byte 6.
    pub open spec fn spec_version(self) -> u8 {
        self@[6] / 16
    }

    /// The variant nibble: high half of byte 8.
    pub open spec fn spec_variant(self) -> u8 {
        self@[8] / 16
    }
}

/// A UUID has 16 bytes and a value below 2^128.
pub broadcast proof fn lemma_uuid_wf(u: Uuid)
    ensures
        #[trigger] u@.len() == 16,
        u.value() < uuid_limit(),
{
    assert(digits_below(u@, 256));
    lemma_value_bound(u@, 256);
    lemma_pow256_values();
}

/// Two UUIDs with the same value are the same UUID.
pub proof fn lemma_value_injective(a: Uuid, b: Uuid)
    requires
        a.value() == b.value(),
    ensures
        a == b,
{
    assert(digits_below(a@, 256));
    assert(digits_below(b@, 256));
    lemma_fixed_of_value(a@, 256);
    lemma_fixed_of_value(b@, 256);
    assert(a.bytes@ =~= b.bytes@);
    assert(a.bytes == b.bytes);
}

/// The bytes of the UUID of value `n` (for `n < 2^128`).
pub open spec fn bytes_of_value(n: nat) -> Seq<u8> {
    fixed_digits(n, 256, 16)
}

/// `r` carries the UUID of value `n` where `s` is `Ok(n)`, and the same
/// error where `s` is an error.
pub open spec fn decoded_as(r: Result<Uuid, DecodeError>, s: Result<nat, DecodeError>) -> bool {
    match s {
        Ok(n) => r matches Ok(u) && u.value() == n,
        Err(e) => r == Err::<Uuid, DecodeError>(e),
    }
}

impl PartialEq for Uuid {
    fn eq(&self, other: &Self) -> (r: bool) {
        let mut i: usize = 0;
        while i < 16
            invariant
                i <= 16,
                forall|j: int| 0 <= j < i ==> self.bytes[j] == other.bytes[j],
            decreases 16 - i,
        {
            if self.bytes[i] != other.bytes[i] {
                return false;
            }
            i += 1;
        }
        proof {
            assert(self.bytes@ =~= other.bytes@);
        }
        true
    }
}

impl vstd::std_specs::cmp::PartialEqSpecImpl for Uuid {
    open spec fn obeys_eq_spec() -> bool {
        true
    }

    open spec fn eq_spec(&self, other: &Self) -> bool {
        self@ == other@
    }
}

impl Uuid {
    /// Build a UUID from its 16 raw network-order bytes.
    pub fn from_bytes(bytes: [u8; 16]) -> (u: Self)
        ensures
            u@ == bytes@,
    {
        Uuid { bytes }
    }

    /// Nil UUID — all bits zero (RFC 9562 §5.9).
    pub fn nil() -> (u: Self)
        ensures
            u@ == Seq::new(16, |i: int| 0u8),
            u.value() == 0,
    {
        let u = Uuid { bytes: [0u8; 16] };
        proof {
            assert(u@ =~= fixed_digits(0, 256, 16)) by {
                lemma_fixed_below(0, 256, 16);
                reveal_with_fuel(fixed_digits, 17);
            }
            lemma_fixed_value(0, 256, 16);
            lemma_pow256_values();
            vstd::arithmetic::div_mod::lemma_small_mod(0, uuid_limit());
            assert(u@ =~= Seq::new(16, |i: int| 0u8));
        }
        u
    }

    /// Max UUID — all bits one (RFC 9562 §5.10).
    pub fn max() -> (u: Self)
        ensures
            u@ == Seq::new(16, |i: int| 0xffu8),
            u.value() == uuid_limit() - 1,
    {
        let u = Uuid { bytes: [0xffu8; 16] };
        proof {
            let n: nat = 0xffff_ffff_ffff_ffff_ffff_ffff_ffff_ffff;
            assert(u@ =~= fixed_digits(n, 256, 16)) by {
                reveal_with_fuel(fixed_digits, 17);
            }
            lemma_fixed_value(n, 256, 16);
            lemma_pow256_values();
            assert(u@ =~= Seq::new(16, |i: int| 0xffu8));
        }
        u
    }

    /// Try to build a UUID from a slice: errors unless it holds exactly 16 bytes.
    pub fn try_from_slice(bytes: &[u8]) -> (r: Result<Self, DecodeError>)
        ensures
            bytes@.len() == 16 ==> (r matches Ok(u) && u@ == bytes@),
            bytes@.len() != 16 ==> r == Err::<Uuid, DecodeError>(
                DecodeError::InvalidLength { encoding: "raw-bytes", expected: 16, got: bytes@.len() as usize },
            ),
    {
        if bytes.len() != 16 {
            return Err(
                DecodeError::InvalidLength {
                    encoding: "raw-bytes",
                    expected: 16,
                    got: bytes.len(),
                },
            );
        }
        let mut out = [0u8; 16];
        let mut i: usize = 0;
        while i < 16
            invariant
                i <= 16,
                bytes@.len() == 16,
                forall|j: int| 0 <= j < i ==> out[j] == bytes@[j],
            decreases 16 - i,
        {
            out[i] = bytes[i];
            i += 1;
        }
        assert(out@ =~= bytes@);
        Ok(Uuid { bytes: out })
    }

    /// Borrow the raw bytes.
    pub fn as_bytes(&self) -> (b: &[u8; 16])
        ensures
            b@ == self@,
    {
        &self.bytes
    }

    /// Take the raw bytes by value.
    pub fn into_bytes(self) -> (b: [u8; 16])
        ensures
            b@ == self@,
    {
        self.bytes
    }

    /// Build a UUID from a 128-bit unsigned integer, read big-endian: the
    /// most significant byte goes to byte 0.
    pub fn from_u128(n: u128) -> (u: Self)
        ensures
            u.value() == n as nat,
            u@ == bytes_of_value(n as nat),
    {
        let v = fixed_digits_of(n, 256, 16);
        proof {
            lemma_fixed_below(n as nat, 256, 16);
        }
        let mut out = [0u8; 16];
        let mut i: usize = 0;
        while i < 16
            invariant
                i <= 16,
                v@.len() == 16,
                forall|j: int| 0 <= j < i ==> out[j] == v@[j],
            decreases 16 - i,
        {
            out[i] = v[i];
            i += 1;
        }
        assert(out@ =~= v@);
        proof {
            lemma_fixed_value(n as nat, 256, 16);
            lemma_pow256_values();
            vstd::arithmetic::div_mod::lemma_small_mod(n as nat, uuid_limit());
        }
        Uuid { bytes: out }
    }

    /// The UUID as a 128-bit unsigned integer (big-endian reading).
    /// Inverse of [`Uuid::from_u128`].
    pub fn to_u128(self) -> (n: u128)
        ensures
            n as nat == self.value(),
    {
        bytes_value(self.bytes.as_slice())
    }

    /// UUID version: the high nibble of byte 6 (RFC 9562 §4).
    pub fn version(&self) -> (v: u8)
        ensures
            v == self.spec_version(),
    {
        let b = self.bytes[6];
        assert(b >> 4 == b / 16) by (bit_vector);
        b >> 4
    }

    /// UUID variant nibble: the high four bits of byte 8.
    pub fn variant(&self) -> (v: u8)
        ensures
            v == self.spec_variant(),
    {
        let b = self.bytes[8];
        assert(b >> 4 == b / 16) by (bit_vector);
        b >> 4
    }
}

/// `from_u128` and `to_u128` are inverse: a UUID's bytes are the 16-byte
/// big-endian spelling of its value, and that spelling reads back as the
/// value.
pub proof fn law_u128_round_trip(u: Uuid, n: nat)
    requires
        n < uuid_limit(),
    ensures
        bytes_of_value(u.value()) == u@,
        digits_value(bytes_of_value(n), 256) == n,
{
    lemma_uuid_wf(u);
    assert(digits_below(u@, 256));
    lemma_fixed_of_value(u@, 256);
    lemma_fixed_value(n, 256, 16);
    lemma_pow256_values();
    vstd::arithmetic::div_mod::lemma_small_mod(n, uuid_limit());
}

impl From<[u8; 16]> for Uuid {
    fn from(bytes: [u8; 16]) -> (u: Self) {
        Uuid { bytes }
    }
}

impl vstd::std_specs::convert::FromSpecImpl<[u8; 16]> for Uuid {
    open spec fn obeys_from_spec() -> bool {
        true
    }

    open spec fn from_spec(bytes: [u8; 16]) -> Self {
        Uuid::spec_from_array(bytes)
    }
}

impl Uuid {
    /// The UUID holding exactly these bytes.
    pub closed spec fn spec_from_array(bytes: [u8; 16]) -> Self {
        Uuid { bytes }
    }
}

impl From<Uuid> for [u8; 16] {
    fn from(u: Uuid) -> (b: Self) {
        u.bytes
    }
}

impl vstd::std_specs::convert::FromSpecImpl<Uuid> for [u8; 16] {
    open spec fn obeys_from_spec() -> bool {
        true
    }

    open spec fn from_spec(u: Uuid) -> Self {
        Uuid::spec_into_array(u)
    }
}

impl Uuid {
    /// The bytes held by `u`.
    pub closed spec fn spec_into_array(u: Uuid) -> [u8; 16] {
        u.bytes
    }
}

impl Uuid {
    /// Canonical 36-character lowercase hex-dash form (RFC 9562 §4).
    pub fn to_hex_dash(&self) -> (s: String)
        ensures
            s@ == ascii_text(spec_hex_dash(self.value())),
    {
        let v = encode_dash(self.to_u128());
        string_from_ascii(v)
    }

    /// Plain 32-character lowercase hex (no dashes).
    pub fn to_hex(&self) -> (s: String)
        ensures
            s@ == ascii_text(spec_hex(self.value())),
    {
        let v = encode_plain(self.to_u128());
        string_from_ascii(v)
    }
}

impl Uuid {
    /// The UUID holding the 16 bytes of `v`.
    pub(crate) fn from_byte_vec(v: &Vec<u8>) -> (u: Self)
        requires
            v@.len() == 16,
        ensures
            u@ == v@,
    {
        let mut out = [0u8; 16];
        let mut i: usize = 0;
        while i < 16
            invariant
                i <= 16,
                v@.len() == 16,
                forall|j: int| 0 <= j < i ==> out[j] == v@[j],
            decreases 16 - i,
        {
            out[i] = v[i];
            i += 1;
        }
        assert(out@ =~= v@);
        Uuid { bytes: out }
    }
}

impl Uuid {
    /// The debug text of a UUID: `Uuid(` followed by the hex-dash form and
    /// `)`.
    pub fn to_debug_string(&self) -> (s: String)
        ensures
            s@ == "Uuid("@ + ascii_text(spec_hex_dash(self.value())) + ")"@,
    {
        let mut s = String::from_str("Uuid(");
        let h = self.to_hex_dash();
        s.append(h.as_str());
        s.append(")");
        s
    }
}

/// Two UUIDs with the same bytes are the same UUID.
pub proof fn lemma_view_injective(a: Uuid, b: Uuid)
    requires
        a@ == b@,
    ensures
        a == b,
{
    assert(a.bytes@ =~= b.bytes@);
    assert(a.bytes == b.bytes);
}

impl Uuid {
    /// The UUID of value `n` (for `n < 2^128`).
    pub open spec fn of_value(n: nat) -> Uuid {
        choose|u: Uuid| u.value() == n
    }

    /// The UUID holding the bytes `b` (for 16 bytes).
    pub open spec fn of_bytes(b: Seq<u8>) -> Uuid {
        choose|u: Uuid| u@ == b
    }
}

impl From<u128> for Uuid {
    fn from(n: u128) -> (u: Self) {
        let u = Uuid::from_u128(n);
        proof {
            let c = Uuid::of_value(n as nat);
            assert(u.value() == n as nat);
            lemma_value_injective(u, c);
        }
        u
    }
}

impl vstd::std_specs::convert::FromSpecImpl<u128> for Uuid {
    open spec fn obeys_from_spec() -> bool {
        true
    }

    open spec fn from_spec(n: u128) -> Self {
        Uuid::of_value(n as nat)
    }
}

impl From<Uuid> for u128 {
    fn from(u: Uuid) -> (n: Self) {
        u.to_u128()
    }
}

impl vstd::std_specs::convert::FromSpecImpl<Uuid> for u128 {
    open spec fn obeys_from_spec() -> bool {
        true
    }

    open spec fn from_spec(u: Uuid) -> Self {
        u.value() as u128
    }
}

impl<'a> TryFrom<&'a [u8]> for Uuid {
    type Error = DecodeError;

    fn try_from(bytes: &'a [u8]) -> (r: Result<Self, DecodeError>) {
        let r = Uuid::try_from_slice(bytes);
        proof {
            if let Ok(u) = r {
                let c = Uuid::of_bytes(bytes@);
                assert(u@ == bytes@);
                lemma_view_injective(u, c);
            }
        }
        r
    }
}

impl<'a> vstd::std_specs::convert::TryFromSpecImpl<&'a [u8]> for Uuid {
    open spec fn obeys_try_from_spec() -> bool {
        true
    }

    open spec fn try_from_spec(bytes: &'a [u8]) -> Result<Self, DecodeError> {
        if bytes@.len() == 16 {
            Ok(Uuid::of_bytes(bytes@))
        } else {
            Err(
                DecodeError::InvalidLength {
                    encoding: "raw-bytes",
                    expected: 16,
                    got: bytes@.len() as usize,
                },
            )
        }
    }
}

impl AsRef<[u8]> for Uuid {
    fn as_ref(&self) -> (r: &[u8])
        ensures
            r@ == self@,
    {
        self.bytes.as_slice()
    }
}

/// Every 16 bytes are the bytes of some UUID.
pub proof fn lemma_uuid_of_bytes(s: Seq<u8>)
    requires
        s.len() == 16,
    ensures
        Uuid::of_bytes(s)@ == s,
{
    let u = Uuid {
        bytes: [
            s[0], s[1], s[2], s[3], s[4], s[5], s[6], s[7], s[8], s[9], s[10], s[11], s[12],
            s[13], s[14], s[15],
        ],
    };
    assert(u@ =~= s);
}

/// Every value below 2^128 is the value of some UUID.
pub proof fn lemma_uuid_of_value(n: nat)
    requires
        n < uuid_limit(),
    ensures
        Uuid::of_value(n).value() == n,
{
    let b = bytes_of_value(n);
    lemma_fixed_below(n, 256, 16);
    lemma_uuid_of_bytes(b);
    let u = Uuid::of_bytes(b);
    law_u128_round_trip(u, n);
}

} // verus!
