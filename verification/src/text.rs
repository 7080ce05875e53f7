//! ASCII text: the bridge between the byte strings that the encodings
//! spell and the `String`s and `&str`s of the public API.

use vstd::prelude::*;
use vstd::utf8::*;

verus! {

/// The characters of an ASCII byte string.
pub open spec fn ascii_text(bytes: Seq<u8>) -> Seq<char> {
    bytes.map_values(|b: u8| b as char)
}

/// Every byte is ASCII.
pub open spec fn all_ascii(bytes: Seq<u8>) -> bool {
    forall|i: int| 0 <= i < bytes.len() ==> (#[trigger] bytes[i]) < 0x80
}

/// The UTF-8 encoding of ASCII text is the text's own bytes.
pub proof fn lemma_ascii_utf8(bytes: Seq<u8>)
    requires
        all_ascii(bytes),
    ensures
        encode_utf8(ascii_text(bytes)) == bytes,
{
    let chars = ascii_text(bytes);
    assert forall|i| 0 <= i < chars.len() implies '\0' <= #[trigger] chars[i] <= '\u{7f}' by {
        assert(bytes[i] < 0x80);
        assert(chars[i] == bytes[i] as char);
    }
    assert(is_ascii_chars(chars));
    is_ascii_chars_encode_utf8(chars);
    let e = encode_utf8(chars);
    assert forall|i| 0 <= i < bytes.len() implies e[i] == bytes[i] by {
        assert(chars[i] as u8 == e[i]);
        assert(chars[i] == bytes[i] as char);
    }
    assert(e =~= bytes);
}

/// Builds a `String` from ASCII bytes with `String::from_utf8`.
///
/// Trusted: for bytes that are all ASCII (so valid UTF-8),
/// `String::from_utf8` returns `Ok` with a string whose characters are
/// those bytes, one for one; this contract states exactly that.
#[verifier::external_body]
pub(crate) fn string_from_ascii(bytes: Vec<u8>) -> (s: String)
    requires
        all_ascii(bytes@),
    ensures
        s@ == ascii_text(bytes@),
{
    match String::from_utf8(bytes) {
        Ok(s) => s,
        Err(_) => String::new(),
    }
}

} // verus!
