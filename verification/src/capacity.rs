//! Buffer sizing helpers and the error reported when an output slice is
//! too small.

use crate::model::{byte_count, symbol_count};
use crate::text::{ascii_text, decimal_bytes, decimal_string};
use vstd::prelude::*;

verus! {

/// Error returned when an output slice cannot hold the full result.
#[derive(Debug, Clone, Copy, PartialEq, Eq, Structural)]
pub struct CapacityError {
    /// Number of bytes the operation requires.
    pub required: usize,
    /// Number of bytes the caller provided.
    pub available: usize,
}

/// What a [`CapacityError`] says: the available and the required length.
pub open spec fn capacity_message(error: CapacityError) -> Seq<char> {
    "output slice length "@ + ascii_text(decimal_bytes(error.available as nat))
        + " is below the required length "@ + ascii_text(decimal_bytes(error.required as nat))
}

impl CapacityError {
    /// The human-readable description of this error.
    pub fn message(&self) -> (text: String)
        ensures
            text@ == capacity_message(*self),
    {
        let mut text = String::from_str("output slice length ");
        text.append(decimal_string(self.available).as_str());
        text.append(" is below the required length ");
        text.append(decimal_string(self.required).as_str());
        text
    }

    /// The lower-level error that caused this one: there is none.
    pub fn source(&self) -> (cause: Option<&CapacityError>)
        ensures
            cause is None,
    {
        None
    }
}

/// Returns the number of symbols that the encoding of `bytes` input bytes
/// occupies: `ceil(8 * bytes / 5)`.
///
/// Computed per five-byte block so that the intermediate product cannot
/// overflow `usize`. The result exceeds `usize::MAX` only for inputs
/// occupying more than five eighths of the address space, which no slice
/// does; such a length is outside the contract.
pub fn encoded_len(bytes: usize) -> (symbols: usize)
    requires
        symbol_count(bytes as nat) <= usize::MAX,
    ensures
        symbols == symbol_count(bytes as nat),
{
    let blocks = bytes / 5;
    let tail = bytes % 5;
    assert(symbol_count(bytes as nat) == blocks * 8 + (tail * 8 + 4) / 5);
    blocks * 8 + (tail * 8 + 4) / 5
}

/// Returns the number of whole bytes that `symbols` Crockford symbols
/// decode to: `floor(5 * symbols / 8)`.
///
/// Computed per eight-symbol block so that the intermediate product cannot
/// overflow `usize`. Bytes that decoding skips do not count as symbols, so
/// `decoded_len(input.len())` bounds the payload of any input of that
/// length.
pub fn decoded_len(symbols: usize) -> (bytes: usize)
    ensures
        bytes == byte_count(symbols as nat),
{
    let blocks = symbols / 8;
    let tail = symbols % 8;
    assert(byte_count(symbols as nat) == blocks * 5 + tail * 5 / 8);
    blocks * 5 + tail * 5 / 8
}

} // verus!
