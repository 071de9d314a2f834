//! Crockford Base32 encoding and decoding of byte slices.
//!
//! The Crockford alphabet excludes the visually ambiguous characters `I`,
//! `L`, `O`, and `U`. Decoding is case-insensitive and accepts each of them
//! as an alias for its lookalike (`O` as `0`; `I` or `L` as `1`; `U` as
//! `V`).
//!
//! This crate encodes byte slices, not integers: when the bit length of
//! the input is not a multiple of five, the final symbol is padded with
//! zero bits on the right.
//!
//! [`decode`], [`sized_decode`], and [`decode_to_slice`] are lenient: they
//! silently skip every byte outside the alphabet. [`try_decode`] and
//! [`try_decode_to_slice`] are strict: they accept an input only if it is
//! the canonical encoding of the bytes it denotes.
//!
//! [`encode_to_slice`], [`decode_to_slice`], and [`try_decode_to_slice`]
//! write the whole result or none of it, reporting a [`CapacityError`]
//! when the output slice is too short; [`encoded_len`] and
//! [`decoded_len`] give the sizes they require. [`sized_encode`] and
//! [`sized_decode`] instead truncate to their const-generic size.
//!
//! [`encode_into`] hands a `core::fmt::Write` sink the encoding, without
//! allocating, in the pieces that [`encoded_pieces`] gives, in order,
//! stopping at the first error the sink reports.
//!
//! [`encode_with_check`] and [`decode_with_check`] add and verify
//! Crockford's trailing check symbol, computed over the payload read as a
//! big-endian integer.
//!
//! The contracts are stated over the model in [`model`]: [`model::encoding`]
//! and [`model::decoding`] for the lenient functions,
//! [`decoder::strict_decoding`] for the strict ones, and
//! [`check::checked_decoding`] for the check symbol. [`laws`] proves the
//! properties that relate them.

pub mod alphabet;
mod bitbuf;
pub mod capacity;
pub mod check;
pub mod crockford32;
pub mod decoder;
pub mod encoder;
pub mod laws;
pub mod model;
pub mod radix;
mod text;

pub use alphabet::{ALPHABET, CHECK_ALPHABET, CHECK_DECODE_MAP, DECODE_MAP, INVALID};
pub use capacity::{decoded_len, encoded_len, CapacityError};
pub use check::{check_digit, check_symbol, decode_with_check, encode_with_check, CheckError};
pub use decoder::{
    decode, decode_to_slice, sized_decode, try_decode, try_decode_to_slice, DecodeError,
};
pub use encoder::{encode, encode_into, encode_to_slice, encoded_pieces, sized_encode};
