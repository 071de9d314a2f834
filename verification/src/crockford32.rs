//! Namespaced re-exports of the core encoding and decoding functions, the
//! buffer-sizing helpers they need, and their error types.
//!
//! Useful when glob-importing alongside another base32 crate: this module
//! brings in only the encode/decode surface, not the alphabet or the
//! lookup tables.

pub use crate::capacity::{decoded_len, encoded_len, CapacityError};
pub use crate::decoder::{
    decode, decode_to_slice, sized_decode, try_decode, try_decode_to_slice, DecodeError,
};
pub use crate::encoder::{encode, encode_into, encode_to_slice, sized_encode};
