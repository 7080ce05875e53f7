# uuid_altenc

Encodes and decodes UUIDs in the alternate text formats of
`draft-davis-uuidrev-alt-uuid-encoding-methods-00`: Base16, Base32
(standard, hex, "humans"), Base36, Base52, Base58btc, Base62 (IEEE and
sort), Base64 (standard, URL-safe, sort), Z85, the three UUID-NCName
variants and Base62id, with a length-based `parse`.

The library in `src/` is written in Verus. Every encoder's output is
stated as a function of the UUID's 128-bit value, and every decoder's
result, error variant and payload included, as a function of the input
bytes. On top of these contracts the library proves:

- every decoder inverts its encoder, for every UUID;
- for hex, Z85, Base62id and the Base32 and Base64 families, a string
  decodes to a UUID exactly when it is that UUID's spelling (up to letter
  case for the case-folding alphabets);
- a UUID-NCName string that decodes is the encoding of what it decodes
  to, so two distinct NCName strings never decode to the same UUID;
- `parse` reads back each encoding whose length and characters pin it
  down, and refuses the other lengths as ambiguous;
- hex, Base32hex, Base32 "humans", Base64 sort (and equal-length Base62
  sort) spellings sort like the UUIDs they spell, and byte order is
  numeric order;
- the case-folding decoders (hex, the Base32 family, Base36) read any
  case variant of a valid input alike;
- Base62id spellings always start with an uppercase letter.

## Layout

- `src/lib.rs` — the `Uuid` type, its constructors and conversions.
- `src/digits.rs` — positional notation: values of digit strings,
  fixed- and minimal-width spellings.
- `src/alphabets.rs` — the alphabets, symbol ↔ digit maps, reading digits.
- `src/bitstream.rs`, `src/base32_64.rs` — the fixed-width bit-stream
  encodings.
- `src/integer_base.rs`, `src/integer_encodings.rs` — the variable-width
  integer encodings.
- `src/base16.rs`, `src/base85.rs`, `src/base62id.rs`, `src/ncname.rs` —
  hex, Z85, Base62id and UUID-NCName.
- `src/autodetect.rs` — `parse`.
- `src/order.rs`, `src/case_folding.rs`, `src/canonical.rs` — the
  ordering, case and canonical-spelling laws.
- `src/error.rs`, `src/text.rs` — errors with their messages, ASCII text.
- `app/lib.rs` — `serde`, `Display` and `std::error::Error` through
  wrapper types.
- `tests/` — the conformance, property and security tests.
