//! Crockford Base32 check-symbol support.
//!
//! The check symbol is computed as `n mod 37`, where `n` is the payload
//! interpreted as a big-endian integer; leading zero bytes do not affect
//! it. Check symbols produced this way are not interchangeable with those
//! of integer-based Crockford implementations, which compute the check
//! over the integer that the symbol string denotes.

use crate::alphabet::{
    check_symbol_value, lemma_check_alphabet, lemma_check_decode_map, lemma_symbol_value_range,
    CHECK_ALPHABET, CHECK_DECODE_MAP, HYPHEN, INVALID,
};
use crate::capacity::encoded_len;
use crate::decoder::{decode_message, strict_decoding, try_decode, DecodeError};
use crate::model::{encoding, symbol_count};
use crate::radix::be_value;
use crate::text::{ascii_string, ascii_text, decimal_bytes, decimal_string, is_ascii_bytes};
use vstd::arithmetic::div_mod::{lemma_add_mod_noop, lemma_mul_mod_noop_left};
use vstd::arithmetic::power2::lemma2_to64;
use vstd::prelude::*;

verus! {

/// The check value of `payload`: its big-endian value modulo 37.
pub open spec fn check_value(payload: Seq<u8>) -> nat {
    be_value(payload, 8) % 37
}

/// Errors returned by [`decode_with_check`].
#[derive(Debug, Clone, Copy, PartialEq, Eq, Structural)]
#[non_exhaustive]
pub enum CheckError {
    /// `input` contains no non-skipped character to serve as the check
    /// symbol.
    Missing,
    /// The trailing symbol is not part of the 37-symbol check alphabet.
    InvalidSymbol,
    /// The body preceding the check symbol is not a canonical Crockford
    /// encoding.
    Body(DecodeError),
    /// The check digit derived from the decoded payload does not match
    /// the digit supplied by the input's trailing check symbol.
    Mismatch {
        /// The check digit computed from the decoded payload.
        expected: u8,
        /// The check digit read from the input's trailing symbol.
        actual: u8,
    },
}

/// What a [`CheckError`] says.
pub open spec fn check_message(error: CheckError) -> Seq<char> {
    match error {
        CheckError::Missing => "input contains no check symbol"@,
        CheckError::InvalidSymbol => "trailing symbol is not part of the check alphabet"@,
        CheckError::Body(body) => "invalid body: "@ + decode_message(body),
        CheckError::Mismatch { expected, actual } => "check digit mismatch: payload requires "@
            + ascii_text(decimal_bytes(expected as nat)) + ", input supplied "@ + ascii_text(
            decimal_bytes(actual as nat),
        ),
    }
}

impl CheckError {
    /// The human-readable description of this error.
    pub fn message(&self) -> (text: String)
        ensures
            text@ == check_message(*self),
    {
        match *self {
            CheckError::Missing => String::from_str("input contains no check symbol"),
            CheckError::InvalidSymbol => String::from_str(
                "trailing symbol is not part of the check alphabet",
            ),
            CheckError::Body(error) => {
                let mut text = String::from_str("invalid body: ");
                text.append(error.message().as_str());
                text
            },
            CheckError::Mismatch { expected, actual } => {
                let mut text = String::from_str("check digit mismatch: payload requires ");
                text.append(decimal_string(expected as usize).as_str());
                text.append(", input supplied ");
                text.append(decimal_string(actual as usize).as_str());
                text
            },
        }
    }

    /// The lower-level error that caused this one: the body's decoding
    /// error for a [`CheckError::Body`], none otherwise.
    pub fn source(&self) -> (cause: Option<&DecodeError>)
        ensures
            match *self {
                CheckError::Body(error) => cause == Some(&error),
                _ => cause is None,
            },
    {
        match self {
            CheckError::Body(error) => Some(error),
            CheckError::Missing | CheckError::InvalidSymbol | CheckError::Mismatch { .. } => None,
        }
    }
}

impl From<DecodeError> for CheckError {
    fn from(error: DecodeError) -> (converted: Self) {
        CheckError::Body(error)
    }
}

impl vstd::std_specs::convert::FromSpecImpl<DecodeError> for CheckError {
    open spec fn obeys_from_spec() -> bool {
        true
    }

    open spec fn from_spec(error: DecodeError) -> Self {
        CheckError::Body(error)
    }
}

/// Computes the Crockford check digit for `input`: `n mod 37`, where `n`
/// is the big-endian integer that `input` represents.
pub fn check_digit(input: &[u8]) -> (digit: u8)
    ensures
        digit == check_value(input@),
        digit < 37,
{
    let mut remainder: u16 = 0;
    let mut i: usize = 0;
    proof {
        lemma2_to64();
        assert(input@.take(0) =~= Seq::<u8>::empty());
    }
    while i < input.len()
        invariant
            i <= input.len(),
            remainder as nat == be_value(input@.take(i as int), 8) % 37,
            remainder < 37,
            vstd::arithmetic::power2::pow2(8) == 256,
        decreases input.len() - i,
    {
        let ghost n = be_value(input@.take(i as int), 8);
        proof {
            assert(input@.take(i + 1) =~= input@.take(i as int).push(input[i as int]));
            crate::model::lemma_be_value_push(input@.take(i as int), input[i as int], 8);
            lemma_mul_mod_noop_left(n as int, 256, 37);
            lemma_add_mod_noop((n * 256) as int, input[i as int] as int, 37);
            lemma_add_mod_noop(((n % 37) * 256) as int, input[i as int] as int, 37);
            vstd::arithmetic::div_mod::lemma_mod_mod((n * 256) as int, 37, 1);
        }
        remainder = (remainder * 256 + input[i] as u16) % 37;
        i += 1;
    }
    proof {
        assert(input@.take(i as int) =~= input@);
    }
    remainder as u8
}

/// Returns the check symbol for `input`.
pub fn check_symbol(input: &[u8]) -> (symbol: u8)
    ensures
        symbol == CHECK_ALPHABET@[check_value(input@) as int],
{
    CHECK_ALPHABET[check_digit(input) as usize]
}

/// Encodes `input` into a Crockford Base32 string and appends the check
/// symbol.
pub fn encode_with_check(input: &[u8]) -> (text: String)
    requires
        symbol_count(input.len() as nat) < usize::MAX,
    ensures
        text@ == ascii_text(encoding(input@).push(CHECK_ALPHABET@[check_value(input@) as int])),
{
    let symbols = encoded_len(input.len());
    proof {
        crate::encoder::lemma_encoding_ascii(input@);
    }
    let mut output = vec![0u8; symbols + 1];
    let written = crate::encoder::write_encoded(input, output.as_mut_slice());
    output[symbols] = check_symbol(input);
    proof {
        crate::encoder::lemma_encoding_ascii(input@);
        lemma_check_alphabet();
        let expected = encoding(input@).push(CHECK_ALPHABET@[check_value(input@) as int]);
        assert(output@ =~= expected);
        assert(is_ascii_bytes(output@)) by {
            assert forall|i: int| 0 <= i < output@.len() implies #[trigger] output@[i] < 128 by {
                if i < symbols {
                    assert(output@[i] == encoding(input@)[i]);
                }
            }
        }
    }
    ascii_string(output)
}

/// Whether `byte` is skipped when locating the check symbol: ASCII
/// whitespace (space, tab, line feed, form feed, carriage return) or a
/// hyphen.
pub open spec fn is_skip_byte(byte: u8) -> bool {
    byte == 0x20 || byte == 0x09 || byte == 0x0a || byte == 0x0c || byte == 0x0d || byte == HYPHEN
}

/// Whether `byte` is ASCII whitespace or a hyphen.
fn is_skip(byte: u8) -> (skip: bool)
    ensures
        skip == is_skip_byte(byte),
{
    byte == 0x20 || byte == 0x09 || byte == 0x0a || byte == 0x0c || byte == 0x0d || byte == HYPHEN
}

/// The position of the check symbol: the last byte of `input` that is not
/// skipped.
pub open spec fn check_position(input: Seq<u8>) -> Option<int>
    decreases input.len(),
{
    if input.len() == 0 {
        None
    } else if !is_skip_byte(input.last()) {
        Some(input.len() - 1)
    } else {
        check_position(input.drop_last())
    }
}

/// What [`decode_with_check`] makes of `input`.
pub open spec fn checked_decoding(input: Seq<u8>) -> Result<Seq<u8>, CheckError> {
    match check_position(input) {
        None => Err(CheckError::Missing),
        Some(position) => {
            let actual = check_symbol_value(input[position]);
            if actual == INVALID {
                Err(CheckError::InvalidSymbol)
            } else {
                match strict_decoding(input.take(position)) {
                    Err(error) => Err(CheckError::Body(error)),
                    Ok(payload) => if actual as nat == check_value(payload) {
                        Ok(payload)
                    } else {
                        Err(
                            CheckError::Mismatch {
                                expected: check_value(payload) as u8,
                                actual,
                            },
                        )
                    },
                }
            }
        },
    }
}

/// Decodes a Crockford Base32 input that ends with a check symbol.
///
/// The check symbol is the last character of `input` that is neither
/// ASCII whitespace nor a hyphen, so trailing line endings and separators
/// do not obscure it. Everything before it is the body, decoded with
/// [`try_decode`] and then validated against the check digit.
///
/// Alterations that preserve the number of symbols are caught, with one
/// exception: every substitution of a single symbol and every transposition
/// of two adjacent symbols is rejected, except a transposition that moves
/// a `U` check symbol into the body, where it reads as `V`; that one may
/// be accepted, but never with the original payload. Alterations that
/// change the number of symbols are caught only with probability 36/37, so
/// passing plain [`encode`](crate::encode) output to this function is not
/// reliably an error. Hyphens are insignificant wherever they appear.
///
/// A `U` in the body is decoded as the alias for `V`, but a trailing `U`
/// is always read as the check symbol for value 36. Within the body, a
/// byte outside the alphabet is reported as [`CheckError::Body`], but a
/// non-alphabet byte in the trailing position is taken as the check symbol
/// and rejected with [`CheckError::InvalidSymbol`].
///
/// # Errors
///
/// - [`CheckError::Missing`] if `input` is empty or contains only skipped
///   characters.
/// - [`CheckError::InvalidSymbol`] if the trailing symbol is not part of
///   the check alphabet.
/// - [`CheckError::Body`] if the body is not a canonical Crockford
///   encoding.
/// - [`CheckError::Mismatch`] if the check digit does not match the
///   decoded payload.
pub fn decode_with_check(input: &[u8]) -> (result: Result<Vec<u8>, CheckError>)
    ensures
        match checked_decoding(input@) {
            Ok(payload) => result is Ok && result->Ok_0@ == payload,
            Err(e) => result == Err::<Vec<u8>, CheckError>(e),
        },
{
    let mut end = input.len();
    proof {
        assert(input@.take(end as int) =~= input@);
    }
    while end > 0 && is_skip(input[end - 1])
        invariant
            end <= input.len(),
            check_position(input@) == check_position(input@.take(end as int)),
        decreases end,
    {
        proof {
            assert(input@.take(end as int).drop_last() =~= input@.take(end - 1));
        }
        end -= 1;
    }
    if end == 0 {
        proof {
            assert(input@.take(0) =~= Seq::<u8>::empty());
        }
        return Err(CheckError::Missing);
    }
    let check_pos = end - 1;
    proof {
        assert(input@.take(end as int).last() == input[check_pos as int]);
        lemma_check_decode_map();
        lemma_symbol_value_range(input[check_pos as int]);
    }
    let check_val = CHECK_DECODE_MAP[input[check_pos] as usize];
    let ghost position = check_pos as int;
    assert(check_position(input@) == Some(position));
    assert(check_val == check_symbol_value(input@[position]));
    if check_val > 36 {
        assert(checked_decoding(input@) == Err::<Seq<u8>, CheckError>(CheckError::InvalidSymbol));
        return Err(CheckError::InvalidSymbol);
    }
    let body = &input[0..check_pos];
    assert(body@ == input@.take(position));
    let decoded = match try_decode(body) {
        Ok(decoded) => decoded,
        Err(error) => {
            assert(checked_decoding(input@) == Err::<Seq<u8>, CheckError>(CheckError::Body(error)));
            return Err(CheckError::Body(error));
        },
    };
    let ghost payload = decoded@;
    assert(strict_decoding(input@.take(position)) == Ok::<Seq<u8>, DecodeError>(payload));
    let expected = check_digit(decoded.as_slice());
    if check_val == expected {
        assert(checked_decoding(input@) == Ok::<Seq<u8>, CheckError>(payload));
        Ok(decoded)
    } else {
        assert(checked_decoding(input@) == Err::<Seq<u8>, CheckError>(
            CheckError::Mismatch { expected, actual: check_val },
        ));
        Err(CheckError::Mismatch { expected, actual: check_val })
    }
}

} // verus!
