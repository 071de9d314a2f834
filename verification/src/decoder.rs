//! Decoding functions.

use crate::alphabet::{
    is_symbol, lemma_decode_map, lemma_symbol_value_range, symbol_value, DECODE_MAP, HYPHEN,
    INVALID,
};
use crate::bitbuf::{lemma_shl_one, lemma_take};
use crate::capacity::{capacity_message, decoded_len, CapacityError};
use crate::text::{ascii_text, decimal_bytes, decimal_string, hex_byte_bytes, hex_byte_string};
use crate::model::{
    byte_count, decoded_values, decoding, fit, flushed_decoding, leftover_bits,
    lemma_regroup_prefix, lemma_streamed_complete, lemma_streamed_prefix_bytes, lemma_streamed_emit,
    lemma_streamed_flush, lemma_streamed_push, lemma_streamed_start, lemma_streamed_whole_bytes,
    lemma_symbol_values_prefix, lemma_symbol_values_shape, lemma_symbol_values_step, regroup,
    streamed, symbol_values,
};
use crate::radix::{be_value, digits_below};
use vstd::arithmetic::power2::{lemma2_to64, lemma_pow2_pos, pow2};
use vstd::prelude::*;

verus! {

/// Errors returned by [`try_decode`] and [`try_decode_to_slice`].
#[derive(Debug, Clone, Copy, PartialEq, Eq, Structural)]
#[non_exhaustive]
pub enum DecodeError {
    /// A byte that is neither a Crockford symbol (or alias) nor a hyphen.
    InvalidByte {
        /// Byte offset of the rejected byte within the input.
        position: usize,
        /// The rejected byte.
        byte: u8,
    },
    /// The final symbol contributes bits that do not complete a byte, at
    /// least one of which is nonzero. The canonical encoding pads those
    /// bits with zeros, so `b"29"` is rejected while `b"28"` is accepted;
    /// both would otherwise denote `[0x12]`.
    NonZeroPadding {
        /// Byte offset of the offending symbol within the input.
        position: usize,
        /// The offending symbol.
        byte: u8,
    },
    /// The final symbol contributes no bits to the payload at all, so the
    /// input is longer than the canonical encoding of the bytes it
    /// denotes. A single symbol appended to a complete encoding, as in
    /// `b"280"` for `b"28"`, produces this error.
    ExcessSymbol {
        /// Byte offset of the offending symbol within the input.
        position: usize,
        /// The offending symbol.
        byte: u8,
    },
    /// The output slice cannot hold the decoded bytes. Only
    /// [`try_decode_to_slice`] returns this variant.
    Capacity(CapacityError),
}

/// What a [`DecodeError`] says: the offending byte and its position, or
/// the capacity shortfall.
pub open spec fn decode_message(error: DecodeError) -> Seq<char> {
    match error {
        DecodeError::InvalidByte { position, byte } => "invalid byte "@ + ascii_text(
            hex_byte_bytes(byte),
        ) + " at position "@ + ascii_text(decimal_bytes(position as nat)),
        DecodeError::NonZeroPadding { position, byte } => "byte "@ + ascii_text(
            hex_byte_bytes(byte),
        ) + " at position "@ + ascii_text(decimal_bytes(position as nat))
            + " sets bits that decoding discards"@,
        DecodeError::ExcessSymbol { position, byte } => "byte "@ + ascii_text(
            hex_byte_bytes(byte),
        ) + " at position "@ + ascii_text(decimal_bytes(position as nat))
            + " contributes no bits to the payload"@,
        DecodeError::Capacity(capacity) => capacity_message(capacity),
    }
}

impl DecodeError {
    /// The human-readable description of this error.
    pub fn message(&self) -> (text: String)
        ensures
            text@ == decode_message(*self),
    {
        match *self {
            DecodeError::InvalidByte { position, byte } => {
                let mut text = String::from_str("invalid byte ");
                text.append(hex_byte_string(byte).as_str());
                text.append(" at position ");
                text.append(decimal_string(position).as_str());
                text
            },
            DecodeError::NonZeroPadding { position, byte } => {
                let mut text = String::from_str("byte ");
                text.append(hex_byte_string(byte).as_str());
                text.append(" at position ");
                text.append(decimal_string(position).as_str());
                text.append(" sets bits that decoding discards");
                text
            },
            DecodeError::ExcessSymbol { position, byte } => {
                let mut text = String::from_str("byte ");
                text.append(hex_byte_string(byte).as_str());
                text.append(" at position ");
                text.append(decimal_string(position).as_str());
                text.append(" contributes no bits to the payload");
                text
            },
            DecodeError::Capacity(error) => error.message(),
        }
    }

    /// The lower-level error that caused this one: the capacity shortfall
    /// of a [`DecodeError::Capacity`], none otherwise.
    pub fn source(&self) -> (cause: Option<&CapacityError>)
        ensures
            match *self {
                DecodeError::Capacity(error) => cause == Some(&error),
                _ => cause is None,
            },
    {
        match self {
            DecodeError::Capacity(error) => Some(error),
            DecodeError::InvalidByte { .. } | DecodeError::NonZeroPadding { .. }
            | DecodeError::ExcessSymbol { .. } => None,
        }
    }
}

impl From<CapacityError> for DecodeError {
    fn from(error: CapacityError) -> (converted: Self) {
        DecodeError::Capacity(error)
    }
}

impl vstd::std_specs::convert::FromSpecImpl<CapacityError> for DecodeError {
    open spec fn obeys_from_spec() -> bool {
        true
    }

    open spec fn from_spec(error: CapacityError) -> Self {
        DecodeError::Capacity(error)
    }
}

/// Counts the bytes of `input` that carry a Crockford value.
fn count_symbols(input: &[u8]) -> (count: usize)
    ensures
        count == symbol_values(input@).len(),
{
    let mut count: usize = 0;
    let mut i: usize = 0;
    proof {
        lemma_decode_map();
        assert(input@.take(0) =~= Seq::<u8>::empty());
    }
    while i < input.len()
        invariant
            i <= input.len(),
            count == symbol_values(input@.take(i as int)).len(),
            forall|b: u8| #[trigger] DECODE_MAP@[b as int] == symbol_value(b),
        decreases input.len() - i,
    {
        proof {
            lemma_symbol_values_step(input@, i as int);
            lemma_symbol_values_shape(input@.take(i as int));
        }
        if DECODE_MAP[input[i] as usize] != INVALID {
            count += 1;
        }
        i += 1;
    }
    proof {
        assert(input@.take(i as int) =~= input@);
    }
    count
}

/// Writes the decoded bytes of `input` into the front of `output`, stopping
/// when `output` is full, and returns the number of bytes written: the
/// smaller of the two lengths. The rest of `output` is untouched.
fn write_decoded(input: &[u8], output: &mut [u8]) -> (written: usize)
    ensures
        written as nat == if old(output).len() < decoding(input@).len() {
            old(output).len() as nat
        } else {
            decoding(input@).len()
        },
        final(output)@ == decoding(input@).take(written as int) + old(output)@.skip(
            written as int,
        ),
{
    let ghost original = output@;
    let ghost all = symbol_values(input@);
    let mut index: usize = 0;
    let mut buffer: u64 = 0;
    let mut bits: u64 = 0;
    let mut i: usize = 0;
    let ghost mut out: Seq<u8> = Seq::empty();
    proof {
        lemma_decode_map();
        lemma_streamed_start(5, 8, buffer);
        assert(input@.take(0) =~= Seq::<u8>::empty());
        lemma_symbol_values_shape(input@);
        lemma2_to64();
        lemma_shl_one(8);
        assert(decoding(input@).len() == byte_count(all.len())) by {
            crate::model::lemma_bytes_below(Seq::<u8>::empty());
            crate::radix::lemma_be_digits_shape(
                be_value(all, 5) / pow2(leftover_bits(all.len())),
                byte_count(all.len()),
                8,
            );
        }
    }
    while i < input.len()
        invariant
            i <= input.len(),
            all == symbol_values(input@),
            bits < 8,
            streamed(symbol_values(input@.take(i as int)), 5, out, 8, bits as nat, buffer),
            index == out.len(),
            index <= output.len(),
            output.len() == original.len(),
            original == old(output)@,
            digits_below(all, 5),
            decoding(input@).len() == byte_count(all.len()),
            forall|b: u8| #[trigger] DECODE_MAP@[b as int] == symbol_value(b),
            forall|t: int| 0 <= t < index ==> output@[t] == out[t],
            forall|t: int| index <= t < output.len() ==> output@[t] == original[t],
            (1u64 << 8u64) == 256,
            pow2(5) == 32,
            pow2(8) == 256,
        decreases input.len() - i,
    {
        let value = DECODE_MAP[input[i] as usize];
        proof {
            lemma_symbol_values_step(input@, i as int);
            lemma_symbol_value_range(input[i as int]);
            lemma_symbol_values_prefix(input@, i + 1);
        }
        if value != INVALID {
            proof {
                lemma_streamed_push(
                    symbol_values(input@.take(i as int)),
                    5,
                    out,
                    8,
                    bits as nat,
                    buffer,
                    value,
                );
            }
            buffer = (buffer << 5) | (value as u64);
            bits += 5;
            if bits >= 8 {
                proof {
                    lemma_streamed_emit(
                        symbol_values(input@.take(i + 1)),
                        5,
                        out,
                        8,
                        bits as nat,
                        buffer,
                    );
                    lemma_take(buffer, (bits - 8) as u64, 8);
                    assert(8 * (index + 1) <= 5 * symbol_values(input@.take(i + 1)).len());
                    assert(5 * symbol_values(input@.take(i + 1)).len() <= 5 * all.len());
                }
                bits -= 8;
                if index == output.len() {
                    proof {
                        let full = out.push(((buffer >> bits) as nat % 256) as u8);
                        lemma_streamed_prefix_bytes(
                            all,
                            symbol_values(input@.take(i + 1)).len(),
                            full,
                            bits as nat,
                            buffer,
                        );
                        assert(out =~= decoding(input@).take(index as int));
                        assert(output@ =~= decoding(input@).take(index as int) + original.skip(
                            index as int,
                        ));
                    }
                    return index;
                }
                let ghost digit = ((buffer >> bits) as nat % 256) as u8;
                output[index] = ((buffer >> bits) & 0xff) as u8;
                proof {
                    out = out.push(digit);
                }
                index += 1;
            }
        }
        i += 1;
    }
    proof {
        assert(input@.take(i as int) =~= input@);
        lemma_streamed_whole_bytes(all, out, bits as nat, buffer);
        assert(decoding(input@).take(index as int) =~= decoding(input@));
        assert(output@ =~= decoding(input@).take(index as int) + original.skip(index as int));
    }
    index
}

/// The lenient decoding of `input` has `decoded_len` of its symbol count
/// bytes, no more than `decoded_len(input.len())`.
proof fn lemma_decoding_len(input: Seq<u8>)
    ensures
        decoding(input).len() == byte_count(symbol_values(input).len()),
        decoding(input).len() <= byte_count(input.len()),
{
    let all = symbol_values(input);
    lemma_symbol_values_shape(input);
    crate::radix::lemma_be_digits_shape(
        be_value(all, 5) / pow2(leftover_bits(all.len())),
        byte_count(all.len()),
        8,
    );
}

/// Decodes a Crockford Base32 encoded byte slice into binary data.
///
/// Characters outside the Crockford alphabet, including whitespace and
/// hyphens, are silently skipped. Decoding is case-insensitive and
/// accepts common misreadings: `O`/`o` as `0`, `I`/`i`/`L`/`l` as `1`,
/// and `U`/`u` as `V`.
///
/// Because invalid bytes are skipped rather than rejected, unboundedly
/// many visually distinct inputs decode to the same output; use
/// [`try_decode`] where input canonicity matters.
///
/// Trailing bits that do not form a complete byte are discarded. To
/// preserve them as a left-aligned partial byte, use [`sized_decode`].
///
/// The returned vector is sized from the number of symbols in `input`
/// rather than from its length.
pub fn decode(input: &[u8]) -> (output: Vec<u8>)
    ensures
        output@ == decoding(input@),
{
    let mut output = vec![0u8; decoded_len(count_symbols(input))];
    proof {
        lemma_decoding_len(input@);
    }
    let written = write_decoded(input, output.as_mut_slice());
    proof {
        assert(output@ =~= decoding(input@));
    }
    output
}

/// Decodes `input` and writes the decoded bytes into `output`, returning
/// the number of bytes written.
///
/// Characters outside the Crockford alphabet, including whitespace and
/// hyphens, are silently skipped, as with [`decode`]. Use
/// [`try_decode_to_slice`] to reject them instead.
///
/// The whole payload is written or none of it is: if `output` cannot hold
/// every complete byte the input decodes to, `output` is left unmodified
/// and the required and available lengths are reported. Bytes of `output`
/// beyond the payload are left untouched.
///
/// As with [`decode`], trailing bits that do not form a complete byte
/// are discarded.
pub fn decode_to_slice(input: &[u8], output: &mut [u8]) -> (result: Result<usize, CapacityError>)
    ensures
        ({
            let payload = decoding(input@);
            let available = old(output).len();
            if payload.len() > available {
                &&& result == Err::<usize, CapacityError>(
                    CapacityError { required: payload.len() as usize, available },
                )
                &&& final(output)@ == old(output)@
            } else {
                &&& result == Ok::<usize, CapacityError>(payload.len() as usize)
                &&& final(output)@ == payload + old(output)@.skip(payload.len() as int)
            }
        }),
{
    let available = output.len();
    proof {
        lemma_decoding_len(input@);
        assert(byte_count(symbol_values(input@).len()) <= byte_count(input.len() as nat));
    }
    // `decoded_len(input.len())` bounds the payload from above, so the
    // symbols need counting only when that bound does not already fit.
    if decoded_len(input.len()) > available {
        let required = decoded_len(count_symbols(input));
        if required > available {
            return Err(CapacityError { required, available });
        }
    }
    let written = write_decoded(input, output);
    Ok(written)
}

/// Decodes a Crockford Base32 encoded byte slice into a fixed-size array.
///
/// Characters outside the Crockford alphabet, including whitespace and
/// hyphens, are silently skipped. If the input decodes to more than `S`
/// bytes, the output is truncated; if to fewer, the remaining bytes are
/// zero. Unlike [`decode_to_slice`], an output too small to hold the whole
/// payload is not an error, because the fixed size is chosen by the caller
/// at compile time. The input beyond what the `S` bytes need is never
/// read.
///
/// Unlike [`decode`], trailing bits that do not form a complete byte are
/// flushed as a left-aligned partial byte (high bits from the input, low
/// bits zero), so that [`sized_encode`](crate::sized_encode) followed by
/// [`sized_decode`] preserves the leading bits of the input.
pub fn sized_decode<const S: usize>(input: &[u8]) -> (output: [u8; S])
    ensures
        output@ == fit(flushed_decoding(input@), S as nat, 0),
{
    let mut output: [u8; S] = vstd::array::array_fill_for_copy_types(0u8);
    if S == 0 {
        proof {
            assert(output@ =~= fit(flushed_decoding(input@), S as nat, 0));
        }
        return output;
    }
    let ghost all = symbol_values(input@);
    let mut index: usize = 0;
    let mut buffer: u64 = 0;
    let mut bits: u64 = 0;
    let mut i: usize = 0;
    let ghost mut out: Seq<u8> = Seq::empty();
    proof {
        lemma_decode_map();
        lemma_streamed_start(5, 8, buffer);
        assert(input@.take(0) =~= Seq::<u8>::empty());
        lemma_symbol_values_shape(input@);
        lemma2_to64();
        lemma_shl_one(8);
    }
    while i < input.len()
        invariant
            S > 0,
            i <= input.len(),
            all == symbol_values(input@),
            digits_below(all, 5),
            bits < 8,
            streamed(symbol_values(input@.take(i as int)), 5, out, 8, bits as nat, buffer),
            index == out.len(),
            index < S,
            forall|b: u8| #[trigger] DECODE_MAP@[b as int] == symbol_value(b),
            forall|t: int| 0 <= t < index ==> output@[t] == out[t],
            forall|t: int| index <= t < S ==> output@[t] == 0,
            (1u64 << 8u64) == 256,
            pow2(5) == 32,
            pow2(8) == 256,
        decreases input.len() - i,
    {
        let value = DECODE_MAP[input[i] as usize];
        proof {
            lemma_symbol_values_step(input@, i as int);
            lemma_symbol_value_range(input[i as int]);
            lemma_symbol_values_prefix(input@, i + 1);
        }
        if value != INVALID {
            proof {
                lemma_streamed_push(
                    symbol_values(input@.take(i as int)),
                    5,
                    out,
                    8,
                    bits as nat,
                    buffer,
                    value,
                );
            }
            buffer = (buffer << 5) | (value as u64);
            bits += 5;
            if bits >= 8 {
                proof {
                    lemma_streamed_emit(
                        symbol_values(input@.take(i + 1)),
                        5,
                        out,
                        8,
                        bits as nat,
                        buffer,
                    );
                    lemma_take(buffer, (bits - 8) as u64, 8);
                }
                bits -= 8;
                let ghost digit = ((buffer >> bits) as nat % 256) as u8;
                output[index] = ((buffer >> bits) & 0xff) as u8;
                proof {
                    out = out.push(digit);
                }
                index += 1;
                if index == S {
                    proof {
                        let k = symbol_values(input@.take(i + 1)).len();
                        lemma_pow2_pos(bits as nat);
                        vstd::arithmetic::div_mod::lemma_mod_pos_bound(
                            buffer as int,
                            pow2(bits as nat) as int,
                        );
                        lemma_regroup_prefix(
                            all,
                            5,
                            8,
                            k,
                            out,
                            bits as nat,
                            (buffer as nat) % pow2(bits as nat),
                        );
                        let full = regroup(all, 5, 8);
                        assert forall|t: int| 0 <= t < S implies output@[t] == fit(
                            flushed_decoding(input@),
                            S as nat,
                            0,
                        )[t] by {
                            assert(out[t] == full.take(S as int)[t]);
                        }
                        assert(output@ =~= fit(flushed_decoding(input@), S as nat, 0));
                    }
                    return output;
                }
            }
        }
        i += 1;
    }
    proof {
        assert(input@.take(i as int) =~= input@);
    }
    if bits > 0 {
        proof {
            lemma_streamed_flush(all, 5, out, 8, bits as nat, buffer);
            crate::bitbuf::lemma_flush(buffer, bits, 8);
        }
        let ghost digit = ((buffer << (8 - bits)) as nat % 256) as u8;
        output[index] = ((buffer << (8 - bits)) & 0xff) as u8;
        proof {
            out = out.push(digit);
        }
    } else {
        proof {
            lemma_streamed_complete(all, 5, out, 8, buffer);
        }
    }
    proof {
        assert(out == flushed_decoding(input@));
        assert(output@ =~= fit(flushed_decoding(input@), S as nat, 0));
    }
    output
}

/// Whether strict decoding rejects `b`: it is neither a symbol nor a hyphen.
pub open spec fn is_rejected(b: u8) -> bool {
    b != HYPHEN && !is_symbol(b)
}

/// The position of the first byte of `input` that strict decoding rejects.
pub open spec fn first_rejected(input: Seq<u8>) -> Option<int>
    decreases input.len(),
{
    if input.len() == 0 {
        None
    } else {
        match first_rejected(input.drop_last()) {
            Some(position) => Some(position),
            None => if is_rejected(input.last()) {
                Some(input.len() - 1)
            } else {
                None
            },
        }
    }
}

/// The position of the last symbol of `input`.
pub open spec fn last_symbol(input: Seq<u8>) -> Option<int>
    decreases input.len(),
{
    if input.len() == 0 {
        None
    } else if is_symbol(input.last()) {
        Some(input.len() - 1)
    } else {
        last_symbol(input.drop_last())
    }
}

/// What strict decoding makes of `input`: the first rejected byte; else,
/// for a final symbol that contributes no bits or sets bits that decoding
/// discards, that symbol; else the decoded payload.
pub open spec fn strict_decoding(input: Seq<u8>) -> Result<Seq<u8>, DecodeError> {
    match first_rejected(input) {
        Some(position) => Err(DecodeError::InvalidByte { position: position as usize, byte: input[position] }),
        None => {
            let values = symbol_values(input);
            let discarded = leftover_bits(values.len());
            let last = last_symbol(input).unwrap_or(0);
            if discarded >= 5 {
                Err(DecodeError::ExcessSymbol { position: last as usize, byte: input[last] })
            } else if be_value(values, 5) % pow2(discarded) != 0 {
                Err(DecodeError::NonZeroPadding { position: last as usize, byte: input[last] })
            } else {
                Ok(decoded_values(values))
            }
        },
    }
}

/// A rejected byte in a prefix is the first rejected byte of the whole.
proof fn lemma_first_rejected_extends(input: Seq<u8>, k: int)
    requires
        0 <= k <= input.len(),
        first_rejected(input.take(k)) is Some,
    ensures
        first_rejected(input) == first_rejected(input.take(k)),
    decreases input.len(),
{
    if k == input.len() {
        assert(input.take(k) =~= input);
    } else {
        assert(input.drop_last().take(k) =~= input.take(k));
        lemma_first_rejected_extends(input.drop_last(), k);
    }
}

/// Number of bits that a partial block of `count` symbols contributes
/// without completing a byte. Full eight-symbol blocks contribute exactly
/// forty bits, so only the final partial block matters.
fn discarded_bits(count: u32) -> (bits: u32)
    requires
        count * 5 <= u32::MAX,
    ensures
        bits == (count * 5) % 8,
{
    count * 5 % 8
}

/// What [`check_tail`] makes of a final partial block.
pub open spec fn tail_verdict(buffer: u64, count: u32, last: Option<(usize, u8)>) -> Result<
    (),
    DecodeError,
> {
    match last {
        None => Ok(()),
        Some((position, byte)) => {
            let discarded = ((count * 5) % 8) as nat;
            if discarded >= 5 {
                Err(DecodeError::ExcessSymbol { position, byte })
            } else if (buffer as nat) % pow2(discarded) != 0 {
                Err(DecodeError::NonZeroPadding { position, byte })
            } else {
                Ok(())
            }
        },
    }
}

/// Rejects a partial block whose bits are not those of a canonical
/// encoding.
///
/// `count` is the number of symbols in the final partial block, `buffer`
/// holds their accumulated bits, and `last` identifies the most recent
/// symbol, which is the one at fault in either failure mode.
fn check_tail(buffer: u64, count: u32, last: Option<(usize, u8)>) -> (result: Result<
    (),
    DecodeError,
>)
    requires
        count * 5 <= u32::MAX,
    ensures
        result == tail_verdict(buffer, count, last),
{
    match last {
        None => Ok(()),
        Some((position, byte)) => {
            let discarded = discarded_bits(count);
            // A canonical encoding discards fewer than five bits, because a
            // symbol that contributes no whole bit of payload is never
            // emitted.
            if discarded >= 5 {
                return Err(DecodeError::ExcessSymbol { position, byte });
            }
            proof {
                crate::bitbuf::lemma_low_mask(buffer, discarded as u64);
                lemma_shl_one(discarded as u64);
                lemma_pow2_pos(discarded as nat);
            }
            if buffer & ((1u64 << discarded) - 1) != 0 {
                return Err(DecodeError::NonZeroPadding { position, byte });
            }
            Ok(())
        },
    }
}

/// The verdict on the final partial block is the verdict on the whole input.
proof fn lemma_tail_verdict(input: Seq<u8>, buffer: u64, count: u32, last: Option<(usize, u8)>)
    requires
        first_rejected(input) is None,
        count < 8,
        count as nat == symbol_values(input).len() % 8,
        buffer as nat == be_value(
            symbol_values(input).skip(symbol_values(input).len() - count),
            5,
        ),
        count == 0 ==> last is None,
        count > 0 ==> last_symbol(input) is Some,
        count > 0 ==> last == Some(
            (last_symbol(input).unwrap() as usize, input[last_symbol(input).unwrap()]),
        ),
        last_symbol(input) is Some ==> 0 <= last_symbol(input).unwrap() < input.len(),
    ensures
        match strict_decoding(input) {
            Ok(_) => tail_verdict(buffer, count, last) == Ok::<(), DecodeError>(()),
            Err(e) => tail_verdict(buffer, count, last) == Err::<(), DecodeError>(e),
        },
{
    let values = symbol_values(input);
    let c = values.len();
    let d = ((count * 5) % 8) as nat;
    lemma_symbol_values_shape(input);
    assert(leftover_bits(c) == d) by {
        vstd::arithmetic::div_mod::lemma_fundamental_div_mod(c as int, 8);
        assert(5 * c == 40 * (c / 8) + 5 * count);
        vstd::arithmetic::div_mod::lemma_mod_multiples_vanish(
            (5 * (c / 8)) as int,
            (5 * count) as int,
            8,
        );
    }
    let head = values.take(c - count);
    let tail = values.skip(c - count);
    assert(head + tail =~= values);
    crate::radix::lemma_be_value_append(head, tail, 5);
    assert(tail.len() == count);
    lemma_pow2_pos(d);
    assert(d <= 5 * count) by {
        assert((count * 5) % 8 <= count * 5);
    }
    let rest = (5 * count - d) as nat;
    vstd::arithmetic::power2::lemma_pow2_adds(rest, d);
    assert(5 * tail.len() == rest + d);
    let p = be_value(head, 5);
    assert(p * pow2(5 * tail.len()) == pow2(d) * (p * pow2(rest))) by (nonlinear_arith)
        requires
            pow2(5 * tail.len()) == pow2(rest) * pow2(d),
    ;
    vstd::arithmetic::div_mod::lemma_mod_multiples_vanish(
        (p * pow2(rest)) as int,
        buffer as int,
        pow2(d) as int,
    );
    assert(be_value(values, 5) % pow2(d) == (buffer as nat) % pow2(d));
    if count == 0 {
        lemma2_to64();
        assert(d == 0);
        assert(be_value(values, 5) % pow2(d) == 0);
        assert(strict_decoding(input) == Ok::<Seq<u8>, DecodeError>(decoded_values(values)));
    } else {
        let l = last_symbol(input).unwrap();
        assert(last_symbol(input).unwrap_or(0) == l);
    }
}

/// Rejects an input that is not a canonical encoding, and returns the
/// number of symbols it carries.
///
/// Shared by [`try_decode`] and [`try_decode_to_slice`], so that the two
/// necessarily reach the same verdict and size their output identically.
fn validate(input: &[u8]) -> (result: Result<usize, DecodeError>)
    ensures
        match strict_decoding(input@) {
            Ok(_) => result == Ok::<usize, DecodeError>(symbol_values(input@).len() as usize),
            Err(e) => result == Err::<usize, DecodeError>(e),
        },
{
    let mut buffer: u64 = 0;
    let mut count: u32 = 0;
    let mut symbols: usize = 0;
    let mut last: Option<(usize, u8)> = None;
    let mut position: usize = 0;
    proof {
        lemma_decode_map();
        lemma2_to64();
        assert(input@.take(0) =~= Seq::<u8>::empty());
    }
    while position < input.len()
        invariant
            position <= input.len(),
            first_rejected(input@.take(position as int)) is None,
            symbols == symbol_values(input@.take(position as int)).len(),
            count < 8,
            count as nat == symbols % 8,
            buffer as nat == be_value(
                symbol_values(input@.take(position as int)).skip(symbols - count),
                5,
            ),
            (buffer as nat) < pow2(5 * count as nat),
            count == 0 ==> last is None,
            count > 0 ==> last_symbol(input@.take(position as int)) is Some,
            count > 0 ==> last == Some(
                (
                    last_symbol(input@.take(position as int)).unwrap() as usize,
                    input[last_symbol(input@.take(position as int)).unwrap()],
                ),
            ),
            last_symbol(input@.take(position as int)) is Some ==> 0 <= last_symbol(
                input@.take(position as int),
            ).unwrap() < position,
            forall|b: u8| #[trigger] DECODE_MAP@[b as int] == symbol_value(b),
            pow2(0) == 1,
            pow2(5) == 32,
        decreases input.len() - position,
    {
        let byte = input[position];
        let ghost before = input@.take(position as int);
        let ghost after = input@.take(position + 1);
        proof {
            assert(after.drop_last() =~= before);
            assert(after.last() == byte);
            lemma_symbol_values_step(input@, position as int);
            lemma_symbol_value_range(byte);
            lemma_symbol_values_shape(before);
        }
        if byte != HYPHEN {
            let value = DECODE_MAP[byte as usize];
            if value == INVALID {
                proof {
                    lemma_first_rejected_extends(input@, position + 1);
                }
                return Err(DecodeError::InvalidByte { position, byte });
            }
            proof {
                let sv = symbol_values(before);
                let tail = sv.skip(symbols - count);
                crate::bitbuf::lemma_push_exact(buffer, value as u64, (5 * count) as u64, 5);
                assert(symbol_values(after).skip(symbols + 1 - (count + 1)) =~= tail.push(value));
                crate::model::lemma_be_value_push(tail, value, 5);
                vstd::arithmetic::power2::lemma_pow2_adds(5 * count as nat, 5);
                assert((buffer as nat) * 32 + value < pow2(5 * count as nat) * 32)
                    by (nonlinear_arith)
                    requires
                        (buffer as nat) < pow2(5 * count as nat),
                        value < 32,
                ;
            }
            buffer = (buffer << 5) | (value as u64);
            symbols += 1;
            count += 1;
            last = Some((position, byte));
            if count == 8 {
                buffer = 0;
                count = 0;
                last = None;
                proof {
                    assert(symbol_values(after).skip(symbols as int) =~= Seq::<u8>::empty());
                }
            }
        }
        position += 1;
    }
    proof {
        assert(input@.take(position as int) =~= input@);
        lemma_tail_verdict(input@, buffer, count, last);
    }
    match check_tail(buffer, count, last) {
        Ok(()) => Ok(symbols),
        Err(error) => Err(error),
    }
}

/// Decodes a Crockford Base32 encoded byte slice, rejecting invalid and
/// non-canonical input.
///
/// Unlike [`decode`], which silently skips every byte outside the
/// alphabet, this function accepts an input only if it is the canonical
/// encoding of the bytes it returns: `encode(&try_decode(input)?)` equals
/// `input` with hyphens removed, uppercased, and aliases resolved.
///
/// Three things are rejected:
///
/// - any byte that is neither a Crockford symbol (or alias) nor a hyphen,
///   including whitespace, with [`DecodeError::InvalidByte`];
/// - a final symbol whose discarded bits are not all zero, with
///   [`DecodeError::NonZeroPadding`];
/// - a final symbol that contributes no bits at all, with
///   [`DecodeError::ExcessSymbol`].
///
/// Hyphens are skipped wherever they appear. Decoding remains
/// case-insensitive and accepts the ambiguous aliases.
///
/// # Errors
///
/// Returns the [`DecodeError`] variant described above for the first byte
/// at fault. Never returns [`DecodeError::Capacity`].
pub fn try_decode(input: &[u8]) -> (result: Result<Vec<u8>, DecodeError>)
    ensures
        match strict_decoding(input@) {
            Ok(payload) => result is Ok && result->Ok_0@ == payload,
            Err(e) => result == Err::<Vec<u8>, DecodeError>(e),
        },
{
    let checked = validate(input);
    proof {
        lemma_symbol_values_shape(input@);
        assert(symbol_values(input@).len() <= input.len());
    }
    let symbols = match checked {
        Ok(symbols) => symbols,
        Err(error) => return Err(error),
    };
    proof {
        lemma_symbol_values_shape(input@);
        lemma_decoding_len(input@);
    }
    let mut output = vec![0u8; decoded_len(symbols)];
    let written = write_decoded(input, output.as_mut_slice());
    proof {
        assert(output@ =~= decoding(input@));
    }
    Ok(output)
}

/// Decodes a Crockford Base32 encoded byte slice into `output`, rejecting
/// invalid and non-canonical input, and returns the number of bytes
/// written.
///
/// The allocation-free counterpart of [`try_decode`]: it applies the same
/// three rules and additionally reports an output slice too small to hold
/// the payload, after validating. The whole payload is written or none of
/// it is; `output` is left unmodified on every error.
///
/// # Errors
///
/// Returns the [`DecodeError`] variant that [`try_decode`] would return,
/// or [`DecodeError::Capacity`] if `output` cannot hold the decoded bytes.
pub fn try_decode_to_slice(input: &[u8], output: &mut [u8]) -> (result: Result<
    usize,
    DecodeError,
>)
    ensures
        match strict_decoding(input@) {
            Err(e) => {
                &&& result == Err::<usize, DecodeError>(e)
                &&& final(output)@ == old(output)@
            },
            Ok(payload) => if payload.len() > old(output).len() {
                &&& result == Err::<usize, DecodeError>(
                    DecodeError::Capacity(
                        CapacityError {
                            required: payload.len() as usize,
                            available: old(output).len(),
                        },
                    ),
                )
                &&& final(output)@ == old(output)@
            } else {
                &&& result == Ok::<usize, DecodeError>(payload.len() as usize)
                &&& final(output)@ == payload + old(output)@.skip(payload.len() as int)
            },
        },
{
    // Validate first, so that a rejected input never leaves `output` partly
    // written. The symbol count from the same pass makes the required
    // capacity exact.
    let checked = validate(input);
    proof {
        lemma_symbol_values_shape(input@);
        assert(symbol_values(input@).len() <= input.len());
    }
    let symbols = match checked {
        Ok(symbols) => symbols,
        Err(error) => return Err(error),
    };
    let required = decoded_len(symbols);
    let available = output.len();
    proof {
        lemma_symbol_values_shape(input@);
        lemma_decoding_len(input@);
    }
    if required > available {
        return Err(DecodeError::Capacity(CapacityError { required, available }));
    }
    let written = write_decoded(input, output);
    Ok(written)
}

} // verus!
