# ps_crockford32

Crockford Base32 encoding and decoding of byte slices, written in Verus
with each function's behaviour stated in its contract and proved. The one
exception is `encode_into`: its contract says only that an empty input
succeeds, because no contract can say what a `core::fmt::Write` sink does
with the text it is handed. Its loop invariants prove that it hands the
sink exactly the pieces that `encoded_piece` describes, in order, the
same pieces that `encoded_pieces` returns under an exact contract.

The Crockford alphabet (`0123456789ABCDEFGHJKMNPQRSTVWXYZ`) excludes the
ambiguous `I`, `L`, `O` and `U`. Decoding is case-insensitive and reads
`O` as `0`, `I` and `L` as `1`, and `U` as `V`. A payload's final symbol is
padded with zero bits on the right.

## Layout

- `src/radix.rs`: big-endian numbers over 5-bit and 8-bit digits.
- `src/model.rs`: the mathematical model (`encoding`, `decoding`,
  `flushed_decoding`, `is_canonical`) and the streaming lemmas.
- `src/bitbuf.rs`: facts about the 64-bit shift registers.
- `src/alphabet.rs`: the alphabet, the decoding tables, and their contents
  as spec functions.
- `src/encoder.rs`, `src/decoder.rs`, `src/check.rs`, `src/capacity.rs`:
  the library, each function with its contract.
- `src/laws.rs`: round trip, canonicity of strict decoding and the
  spelling of what it accepts, insignificance of hyphens (with and without
  a check symbol), of letter case and of skipped bytes, prefixes, the fixed-size
  encoding's independence from bytes it does not reach, and the check
  symbol's detection of substitutions and transpositions.
- `src/text.rs`: ASCII text and the `core::fmt::Write` sink.
- `app/lib.rs`: copies of the error types that implement `Display` and
  `std::error::Error`.
- `tests/`: the test suites.
