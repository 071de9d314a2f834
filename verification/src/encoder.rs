//! Encoding functions.

use crate::alphabet::{lemma_alphabet, ALPHABET};
use crate::capacity::{encoded_len, CapacityError};
use crate::bitbuf::{lemma_push_exact, lemma_shl_one, lemma_take};
use crate::model::{
    digit_count, encoded_values, encoding, lemma_be_value_push, lemma_bytes_below,
    lemma_regroup_shape, lemma_regroup_unique, lemma_stream_emit, lemma_streamed_complete,
    lemma_streamed_emit, lemma_streamed_flush, lemma_streamed_push, lemma_streamed_start,
    lemma_encoding_append, lemma_regroup_prefix, fit, spell, streamed, symbol_count,
};
use crate::radix::{be_value, digits_below, lemma_be_value_append};
use crate::text::{
    ascii_str, ascii_string, ascii_text, is_ascii_bytes, sink_write_char, sink_write_str,
};
use vstd::arithmetic::div_mod::{lemma_mod_mod, lemma_small_mod};
use vstd::arithmetic::power2::{lemma2_to64, lemma_pow2_adds, lemma_pow2_pos, pow2};
use vstd::prelude::*;

verus! {

/// Maps the low five bits of `value` to a Crockford alphabet byte.
fn symbol(value: u64) -> (s: u8)
    ensures
        s == ALPHABET@[(value % 32) as int],
{
    assert(value & 0x1f == value % 32) by (bit_vector);
    ALPHABET[(value & 0x1f) as usize]
}

/// The symbol that a register emits when `bits` of its pending bits remain
/// after it: the five pending bits just above them.
proof fn lemma_emit_symbol(buffer: u64, bits: u64)
    requires
        bits <= 58,
    ensures
        (((buffer >> bits) % 32) as nat) == ((buffer as nat) % pow2((bits + 5) as nat)) / pow2(
            bits as nat,
        ),
{
    lemma_take(buffer, bits, 5);
    lemma_shl_one(5);
    lemma2_to64();
}

/// Encodes a full five-byte block into eight symbols.
fn encode_block(chunk: &[u8]) -> (symbols: [u8; 8])
    requires
        chunk.len() == 5,
    ensures
        symbols@ == encoding(chunk@),
{
    let mut buffer: u64 = 0;
    let mut i: usize = 0;
    proof {
        lemma2_to64();
    }
    while i < 5
        invariant
            i <= 5,
            chunk.len() == 5,
            buffer as nat == be_value(chunk@.take(i as int), 8),
            (buffer as nat) < pow2(8 * i as nat),
        decreases 5 - i,
    {
        proof {
            lemma2_to64();
            lemma_push_exact(buffer, chunk[i as int] as u64, (8 * i) as u64, 8);
            assert(chunk@.take(i + 1) =~= chunk@.take(i as int).push(chunk[i as int]));
            lemma_be_value_push(chunk@.take(i as int), chunk[i as int], 8);
            lemma_pow2_adds(8 * i as nat, 8);
            assert((buffer as nat) * 256 + chunk[i as int] < pow2(8 * i as nat) * 256)
                by (nonlinear_arith)
                requires
                    (buffer as nat) < pow2(8 * i as nat),
                    chunk[i as int] < 256,
            ;
        }
        buffer = (buffer << 8) | (chunk[i] as u64);
        i += 1;
    }
    assert(chunk@.take(5) =~= chunk@);
    let mut symbols = [0u8; 8];
    let mut shift: u64 = 40;
    let mut j: usize = 0;
    let ghost mut values: Seq<u8> = Seq::empty();
    proof {
        assert(8 * 5 == 40);
        assert((buffer as nat) < pow2(40));
        lemma_small_mod(buffer as nat, pow2(40));
        assert(be_value(values, 5) == 0);
    }
    while j < 8
        invariant
            j <= 8,
            shift == 40 - 5 * j,
            values.len() == j,
            digits_below(values, 5),
            buffer as nat == be_value(chunk@, 8),
            be_value(chunk@, 8) == be_value(values, 5) * pow2(shift as nat) + (buffer as nat)
                % pow2(shift as nat),
            forall|t: int| 0 <= t < j ==> symbols@[t] == ALPHABET@[values[t] as int],
        decreases 8 - j,
    {
        shift -= 5;
        let ghost pending = (buffer as nat) % pow2((shift + 5) as nat);
        let ghost digit = ((buffer >> shift) % 32) as u8;
        proof {
            lemma_emit_symbol(buffer, shift);
            lemma_pow2_pos(shift as nat);
            lemma_pow2_pos((shift + 5) as nat);
            vstd::arithmetic::div_mod::lemma_mod_pos_bound(buffer as int, pow2((shift + 5) as nat) as int);
            lemma_stream_emit(be_value(values, 5), (shift + 5) as nat, pending, 5);
            lemma_pow2_adds(shift as nat, 5);
            lemma_mod_mod(buffer as int, pow2(shift as nat) as int, pow2(5) as int);
            lemma2_to64();
            lemma_be_value_push(values, digit, 5);
        }
        let s = symbol(buffer >> shift);
        symbols[j] = s;
        proof {
            values = values.push(digit);
        }
        j += 1;
    }
    proof {
        lemma2_to64();
        lemma_bytes_below(chunk@);
        assert(digit_count(8 * chunk@.len(), 5) == 8);
        assert(shift == 0);
        assert(pow2(shift as nat) == 1);
        assert((buffer as nat) % pow2(shift as nat) == 0);
        assert(be_value(values, 5) * pow2(shift as nat) == be_value(values, 5)) by (nonlinear_arith)
            requires
                pow2(shift as nat) == 1,
        ;
        assert(be_value(values, 5) == be_value(chunk@, 8));
        assert(be_value(values, 5) == be_value(chunk@, 8) * pow2(0));
        lemma_regroup_unique(chunk@, 8, 5, values);
        assert(symbols@ =~= spell(values));
    }
    symbols
}

/// Writes the complete encoding of `input` into the front of `output` and
/// returns the number of bytes written; the rest of `output` is untouched.
pub(crate) fn write_encoded(input: &[u8], output: &mut [u8]) -> (written: usize)
    requires
        old(output).len() >= symbol_count(input.len() as nat),
    ensures
        written == symbol_count(input.len() as nat),
        final(output)@ == encoding(input@) + old(output)@.skip(written as int),
{
    let ghost original = output@;
    let ghost n = input.len() as nat;
    let ghost c = symbol_count(n);
    let blocks = input.len() / 5;
    let ghost mut values: Seq<u8> = Seq::empty();
    let mut b: usize = 0;
    proof {
        lemma2_to64();
    }
    while b < blocks
        invariant
            blocks == input.len() / 5,
            b <= blocks,
            n == input.len(),
            c == symbol_count(n),
            output.len() == original.len(),
            original.len() >= c,
            values.len() == 8 * b,
            digits_below(values, 5),
            be_value(input@.take(5 * b as int), 8) == be_value(values, 5),
            forall|t: int| 0 <= t < 8 * b ==> output@[t] == ALPHABET@[values[t] as int],
            forall|t: int| 8 * b <= t < output.len() ==> output@[t] == original[t],
        decreases blocks - b,
    {
        let chunk = &input[5 * b..5 * b + 5];
        let symbols = encode_block(chunk);
        let ghost block_values = encoded_values(chunk@);
        proof {
            lemma2_to64();
            lemma_bytes_below(chunk@);
            lemma_regroup_shape(chunk@, 8, 5);
            assert(digit_count(40, 5) == 8);
            assert(be_value(block_values, 5) == be_value(chunk@, 8)) by (nonlinear_arith)
                requires
                    be_value(block_values, 5) == be_value(chunk@, 8) * pow2(0),
                    pow2(0) == 1,
            ;
            assert(input@.take(5 * b + 5) =~= input@.take(5 * b as int) + chunk@);
            lemma_be_value_append(input@.take(5 * b as int), chunk@, 8);
            lemma_be_value_append(values, block_values, 5);
            assert(8 * b + 8 <= c);
        }
        let mut j: usize = 0;
        while j < 8
            invariant
                j <= 8,
                b < blocks,
                blocks == input.len() / 5,
                c == symbol_count(n),
                n == input.len(),
                8 * b + 8 <= c,
                output.len() == original.len(),
                original.len() >= c,
                symbols@ == spell(block_values),
                block_values.len() == 8,
                forall|t: int| 0 <= t < 8 * b ==> output@[t] == ALPHABET@[values[t] as int],
                forall|t: int|
                    8 * b <= t < 8 * b + j ==> output@[t] == ALPHABET@[block_values[t - 8
                        * b] as int],
                forall|t: int| 8 * b + j <= t < output.len() ==> output@[t] == original[t],
            decreases 8 - j,
        {
            output[8 * b + j] = symbols[j];
            j += 1;
        }
        proof {
            let next = values + block_values;
            assert forall|i: int| 0 <= i < next.len() implies (#[trigger] next[i] as nat) < pow2(
                5,
            ) by {
                if i < values.len() {
                    assert(next[i] == values[i]);
                } else {
                    assert(next[i] == block_values[i - values.len()]);
                }
            }
            assert forall|t: int| 0 <= t < 8 * (b + 1) implies output@[t] == ALPHABET@[next[t]
                as int] by {
                if t < 8 * b {
                    assert(next[t] == values[t]);
                } else {
                    assert(next[t] == block_values[t - 8 * b]);
                }
            }
            values = next;
        }
        b += 1;
    }
    let mut index: usize = blocks * 8;
    let mut buffer: u64 = 0;
    let mut bits: u64 = 0;
    let mut i: usize = blocks * 5;
    proof {
        assert(be_value(values, 5) * pow2(0) + (buffer as nat) % pow2(0) == be_value(values, 5))
            by (nonlinear_arith)
            requires
                pow2(0) == 1,
        ;
        assert(streamed(input@.take(i as int), 8, values, 5, 0, buffer));
    }
    while i < input.len()
        invariant
            i <= input.len(),
            n == input.len(),
            c == symbol_count(n),
            bits < 5,
            streamed(input@.take(i as int), 8, values, 5, bits as nat, buffer),
            index == values.len(),
            output.len() == original.len(),
            original.len() >= c,
            forall|t: int| 0 <= t < index ==> output@[t] == ALPHABET@[values[t] as int],
            forall|t: int| index <= t < output.len() ==> output@[t] == original[t],
        decreases input.len() - i,
    {
        proof {
            lemma2_to64();
            lemma_streamed_push(input@.take(i as int), 8, values, 5, bits as nat, buffer, input[i as int]);
            assert(input@.take(i + 1) =~= input@.take(i as int).push(input[i as int]));
        }
        buffer = (buffer << 8) | (input[i] as u64);
        bits += 8;
        while bits >= 5
            invariant
                i < input.len(),
                n == input.len(),
                c == symbol_count(n),
                bits < 13,
                streamed(input@.take(i + 1), 8, values, 5, bits as nat, buffer),
                index == values.len(),
                output.len() == original.len(),
                original.len() >= c,
                forall|t: int| 0 <= t < index ==> output@[t] == ALPHABET@[values[t] as int],
                forall|t: int| index <= t < output.len() ==> output@[t] == original[t],
            decreases bits,
        {
            proof {
                lemma2_to64();
                lemma_streamed_emit(input@.take(i + 1), 8, values, 5, bits as nat, buffer);
                assert(5 * (index + 1) <= 8 * n);
            }
            bits -= 5;
            let ghost digit = ((buffer >> bits) as nat % 32) as u8;
            output[index] = symbol(buffer >> bits);
            proof {
                values = values.push(digit);
            }
            index += 1;
        }
        i += 1;
    }
    proof {
        assert(input@.take(i as int) =~= input@);
    }
    if bits > 0 {
        proof {
            lemma2_to64();
            lemma_streamed_flush(input@, 8, values, 5, bits as nat, buffer);
            lemma_regroup_shape(input@, 8, 5);
            lemma_bytes_below(input@);
        }
        let ghost digit = ((buffer << (5 - bits)) as nat % 32) as u8;
        output[index] = symbol(buffer << (5 - bits));
        proof {
            values = values.push(digit);
        }
        index += 1;
    } else {
        proof {
            lemma2_to64();
            lemma_streamed_complete(input@, 8, values, 5, buffer);
        }
    }
    proof {
        assert(values == encoded_values(input@));
        assert(output@ =~= encoding(input@) + original.skip(index as int));
    }
    index
}

/// Encoding output consists of ASCII alphabet symbols.
pub(crate) proof fn lemma_encoding_ascii(payload: Seq<u8>)
    ensures
        is_ascii_bytes(encoding(payload)),
        encoding(payload).len() == symbol_count(payload.len()),
{
    lemma_bytes_below(payload);
    lemma_regroup_shape(payload, 8, 5);
    lemma_alphabet();
    lemma2_to64();
    let v = encoded_values(payload);
    assert forall|i: int| 0 <= i < encoding(payload).len() implies #[trigger] encoding(payload)[i]
        < 128 by {
        assert(v[i] < 32);
    }
}

/// Encodes `input` into a fixed-size Crockford Base32 byte array.
///
/// If the full encoding does not fit, it is truncated to `S` bytes; if it
/// is shorter than `S` bytes, the remaining bytes are filled with `'0'`.
/// Unlike [`encode_to_slice`], an output too small to hold the whole
/// encoding is not an error, because the fixed size is chosen by the
/// caller at compile time. The input beyond what the `S` symbols need is
/// never read.
///
/// When the bit length of `input` is not a multiple of five, the final
/// symbol is padded with zero bits on the right (see [`encode`]).
pub fn sized_encode<const S: usize>(input: &[u8]) -> (output: [u8; S])
    ensures
        output@ == fit(encoding(input@), S as nat, 48),
{
    let mut output: [u8; S] = vstd::array::array_fill_for_copy_types(48u8);
    if S == 0 {
        proof {
            assert(output@ =~= fit(encoding(input@), S as nat, 48));
        }
        return output;
    }
    let mut index: usize = 0;
    let mut buffer: u64 = 0;
    let mut bits: u64 = 0;
    let mut i: usize = 0;
    let ghost mut values: Seq<u8> = Seq::empty();
    proof {
        lemma_streamed_start(8, 5, buffer);
        assert(input@.take(0) =~= Seq::<u8>::empty());
        lemma_bytes_below(input@);
    }
    while i < input.len()
        invariant
            S > 0,
            i <= input.len(),
            bits < 5,
            streamed(input@.take(i as int), 8, values, 5, bits as nat, buffer),
            index == values.len(),
            index < S,
            digits_below(input@, 8),
            forall|t: int| 0 <= t < index ==> output@[t] == ALPHABET@[values[t] as int],
            forall|t: int| index <= t < S ==> output@[t] == 48,
        decreases input.len() - i,
    {
        proof {
            lemma2_to64();
            lemma_streamed_push(input@.take(i as int), 8, values, 5, bits as nat, buffer, input[i as int]);
            assert(input@.take(i + 1) =~= input@.take(i as int).push(input[i as int]));
        }
        buffer = (buffer << 8) | (input[i] as u64);
        bits += 8;
        while bits >= 5
            invariant
                S > 0,
                i < input.len(),
                bits < 13,
                streamed(input@.take(i + 1), 8, values, 5, bits as nat, buffer),
                index == values.len(),
                index < S,
                digits_below(input@, 8),
                forall|t: int| 0 <= t < index ==> output@[t] == ALPHABET@[values[t] as int],
                forall|t: int| index <= t < S ==> output@[t] == 48,
            decreases bits,
        {
            proof {
                lemma2_to64();
                lemma_streamed_emit(input@.take(i + 1), 8, values, 5, bits as nat, buffer);
            }
            bits -= 5;
            let ghost digit = ((buffer >> bits) as nat % 32) as u8;
            output[index] = symbol(buffer >> bits);
            proof {
                values = values.push(digit);
            }
            index += 1;
            if index == S {
                proof {
                    lemma_pow2_pos(bits as nat);
                    vstd::arithmetic::div_mod::lemma_mod_pos_bound(buffer as int, pow2(bits as nat) as int);
                    lemma_regroup_prefix(
                        input@,
                        8,
                        5,
                        (i + 1) as nat,
                        values,
                        bits as nat,
                        (buffer as nat) % pow2(bits as nat),
                    );
                    let full = encoded_values(input@);
                    assert forall|t: int| 0 <= t < S implies output@[t] == fit(
                        encoding(input@),
                        S as nat,
                        48,
                    )[t] by {
                        assert(values[t] == full.take(S as int)[t]);
                    }
                    assert(output@ =~= fit(encoding(input@), S as nat, 48));
                }
                return output;
            }
        }
        i += 1;
    }
    proof {
        assert(input@.take(i as int) =~= input@);
    }
    if bits > 0 {
        proof {
            lemma2_to64();
            lemma_streamed_flush(input@, 8, values, 5, bits as nat, buffer);
        }
        let ghost digit = ((buffer << (5 - bits)) as nat % 32) as u8;
        output[index] = symbol(buffer << (5 - bits));
        proof {
            values = values.push(digit);
        }
    } else {
        proof {
            lemma2_to64();
            lemma_streamed_complete(input@, 8, values, 5, buffer);
        }
    }
    proof {
        assert(values == encoded_values(input@));
        assert(output@ =~= fit(encoding(input@), S as nat, 48));
    }
    output
}

/// Encodes `input` and writes the symbols into `output`, returning the
/// number of bytes written.
///
/// The whole encoding is written or none of it is: if `output` cannot hold
/// [`encoded_len(input.len())`](encoded_len) bytes, `output` is left
/// unmodified and the required and available lengths are reported. On
/// success the return value is always `encoded_len(input.len())`, and
/// bytes of `output` beyond the encoding are left untouched.
pub fn encode_to_slice(input: &[u8], output: &mut [u8]) -> (result: Result<usize, CapacityError>)
    requires
        symbol_count(input.len() as nat) <= usize::MAX,
    ensures
        ({
            let required = symbol_count(input.len() as nat);
            let available = old(output).len();
            if required > available {
                &&& result == Err::<usize, CapacityError>(
                    CapacityError { required: required as usize, available },
                )
                &&& final(output)@ == old(output)@
            } else {
                &&& result == Ok::<usize, CapacityError>(required as usize)
                &&& final(output)@ == encoding(input@) + old(output)@.skip(required as int)
            }
        }),
{
    let required = encoded_len(input.len());
    let available = output.len();
    if required > available {
        return Err(CapacityError { required, available });
    }
    let written = write_encoded(input, output);
    Ok(written)
}

/// Encodes `input` into a Crockford Base32 string.
///
/// This is a byte-oriented encoding: when the bit length of `input` is
/// not a multiple of five, the final symbol is padded with zero bits on
/// the right. Crockford's specification instead encodes integers,
/// zero-extending on the left; the two schemes produce different strings
/// (`encode(&[0x12])` is `"28"`, while the integer 18 encodes to `"J"`
/// under the specification), so output of this crate is not
/// interchangeable with integer-based Crockford implementations.
pub fn encode(input: &[u8]) -> (text: String)
    requires
        symbol_count(input.len() as nat) <= usize::MAX,
    ensures
        text@ == ascii_text(encoding(input@)),
{
    let mut output = vec![0u8; encoded_len(input.len())];
    let written = write_encoded(input, output.as_mut_slice());
    proof {
        lemma_encoding_ascii(input@);
        assert(output@ =~= encoding(input@));
    }
    ascii_string(output)
}

/// Where the `k`-th piece of the encoding of `n` bytes ends: after eight
/// symbols for each of the first `n / 5` pieces, one for each full block,
/// then after one more symbol for each later piece.
pub open spec fn piece_end(n: nat, k: nat) -> nat {
    if k <= n / 5 {
        8 * k
    } else {
        8 * (n / 5) + (k - n / 5) as nat
    }
}

/// Number of pieces in which the encoding of `n` bytes is handed out: one
/// per full five-byte block, then one per symbol of the tail.
pub open spec fn piece_count(n: nat) -> nat {
    n / 5 + (symbol_count(n) - 8 * (n / 5)) as nat
}

/// The `k`-th piece of the encoding of `payload`: the eight symbols of the
/// `k`-th full block, or a single symbol of the tail.
pub open spec fn encoded_piece(payload: Seq<u8>, k: nat) -> Seq<u8> {
    encoding(payload).subrange(
        piece_end(payload.len(), k) as int,
        piece_end(payload.len(), k + 1) as int,
    )
}

/// The pieces end in order, the last one where the encoding ends.
proof fn lemma_piece_ends(n: nat)
    ensures
        8 * (n / 5) <= symbol_count(n),
        piece_end(n, piece_count(n)) == symbol_count(n),
        forall|k: nat| k < piece_count(n) ==> #[trigger] piece_end(n, k) < piece_end(n, k + 1),
        forall|k: nat|
            n / 5 <= k < piece_count(n) ==> #[trigger] piece_end(n, k + 1) == piece_end(n, k) + 1,
{
    vstd::arithmetic::div_mod::lemma_fundamental_div_mod(n as int, 5);
    assert(8 * (n / 5) <= symbol_count(n)) by {
        vstd::arithmetic::div_mod::lemma_fundamental_div_mod_converse(
            (8 * (5 * (n / 5)) + 4) as int,
            5,
            (8 * (n / 5)) as int,
            4,
        );
        vstd::arithmetic::div_mod::lemma_div_is_ordered(
            (8 * (5 * (n / 5)) + 4) as int,
            (8 * n + 4) as int,
            5,
        );
    }
}

/// Pieces of `e` that follow one another from its start join into the
/// front of `e` that they cover.
proof fn lemma_pieces_join(e: Seq<u8>, n: nat, pieces: Seq<Seq<u8>>)
    requires
        pieces.len() <= piece_count(n),
        piece_end(n, piece_count(n)) <= e.len(),
        forall|k: int|
            0 <= k < pieces.len() ==> #[trigger] pieces[k] == e.subrange(
                piece_end(n, k as nat) as int,
                piece_end(n, (k + 1) as nat) as int,
            ),
    ensures
        pieces.flatten_alt() == e.take(piece_end(n, pieces.len()) as int),
    decreases pieces.len(),
{
    lemma_piece_ends(n);
    if pieces.len() == 0 {
        assert(e.take(0) =~= Seq::<u8>::empty());
    } else {
        let m = (pieces.len() - 1) as nat;
        let front = pieces.drop_last();
        assert forall|k: int| 0 <= k < front.len() implies #[trigger] front[k] == e.subrange(
            piece_end(n, k as nat) as int,
            piece_end(n, (k + 1) as nat) as int,
        ) by {
            assert(front[k] == pieces[k]);
        }
        lemma_pieces_join(e, n, front);
        assert(pieces.last() == pieces[m as int]);
        assert(piece_end(n, m) < piece_end(n, m + 1));
        assert(piece_end(n, m + 1) <= piece_end(n, piece_count(n))) by {
            if m + 1 < piece_count(n) {
                assert(piece_end(n, m + 1) < piece_end(n, piece_count(n)));
            }
        }
        assert(e.take(piece_end(n, m + 1) as int) =~= e.take(piece_end(n, m) as int)
            + pieces.last());
    }
}

/// The encoding of a payload's `k`-th full block is the `k`-th group of
/// eight symbols of its encoding.
proof fn lemma_block_piece(payload: Seq<u8>, k: int)
    requires
        0 <= k < payload.len() / 5,
    ensures
        5 * k + 5 <= payload.len(),
        encoding(payload).subrange(8 * k, 8 * k + 8) == encoding(
            payload.subrange(5 * k, 5 * k + 5),
        ),
{
    vstd::arithmetic::div_mod::lemma_fundamental_div_mod(payload.len() as int, 5);
    assert(5 * k + 5 <= payload.len()) by (nonlinear_arith)
        requires
            k < payload.len() / 5,
            payload.len() == 5 * (payload.len() / 5) + payload.len() % 5,
            payload.len() % 5 >= 0,
    ;
    let front = payload.take(5 * k);
    let block = payload.subrange(5 * k, 5 * k + 5);
    let rest = payload.skip(5 * k + 5);
    assert(payload =~= front + (block + rest));
    assert(front.len() % 5 == 0) by {
        vstd::arithmetic::div_mod::lemma_mod_multiples_basic(k, 5);
    }
    lemma_encoding_append(front, block + rest);
    lemma_encoding_append(block, rest);
    lemma_encoding_ascii(front);
    lemma_encoding_ascii(block);
    assert(symbol_count((5 * k) as nat) == 8 * k) by {
        vstd::arithmetic::div_mod::lemma_fundamental_div_mod_converse(
            8 * (5 * k) + 4,
            5,
            8 * k,
            4,
        );
    }
    assert(symbol_count(5) == 8);
    assert(encoding(payload).subrange(8 * k, 8 * k + 8) =~= encoding(block));
}

/// The pieces after the full blocks are the symbols of the tail's own
/// encoding, one each.
proof fn lemma_tail_pieces(payload: Seq<u8>)
    ensures
        ({
            let n = payload.len();
            let blocks = n / 5;
            let tail = payload.skip(5 * blocks as int);
            &&& 5 * blocks <= n
            &&& tail.len() < 5
            &&& encoding(tail).len() == symbol_count(tail.len())
            &&& symbol_count(tail.len()) <= 7
            &&& piece_count(n) == blocks + symbol_count(tail.len())
            &&& forall|j: int|
                0 <= j < symbol_count(tail.len()) ==> #[trigger] encoded_piece(
                    payload,
                    (blocks + j) as nat,
                ) == seq![encoding(tail)[j]]
        }),
{
    let n = payload.len();
    let blocks = n / 5;
    let head = payload.take(5 * blocks as int);
    let tail = payload.skip(5 * blocks as int);
    vstd::arithmetic::div_mod::lemma_fundamental_div_mod(n as int, 5);
    assert(head + tail =~= payload);
    vstd::arithmetic::div_mod::lemma_mod_multiples_basic(blocks as int, 5);
    lemma_encoding_append(head, tail);
    lemma_encoding_ascii(head);
    lemma_encoding_ascii(tail);
    lemma_encoding_ascii(payload);
    lemma_piece_ends(n);
    vstd::arithmetic::div_mod::lemma_fundamental_div_mod_converse(
        (8 * (5 * blocks) + 4) as int,
        5,
        (8 * blocks) as int,
        4,
    );
    assert(symbol_count(head.len()) == 8 * blocks);
    assert(symbol_count(tail.len()) <= 7);
    assert forall|j: int| 0 <= j < symbol_count(tail.len()) implies #[trigger] encoded_piece(
        payload,
        (blocks + j) as nat,
    ) == seq![encoding(tail)[j]] by {
        let k = (blocks + j) as nat;
        assert(piece_end(n, k) == 8 * blocks + j);
        assert(piece_end(n, k + 1) == 8 * blocks + j + 1);
        assert(encoding(payload)[8 * blocks + j] == encoding(tail)[j]);
        assert(encoded_piece(payload, k) =~= seq![encoding(tail)[j]]);
    }
}

/// Splits the encoding of `input` into the pieces in which
/// [`encode_into`] hands it to its sink: the eight symbols of each full
/// five-byte block, then each symbol of the tail on its own. Joined in
/// order, the pieces are the encoding.
pub fn encoded_pieces(input: &[u8]) -> (pieces: Vec<Vec<u8>>)
    ensures
        pieces.len() == piece_count(input.len() as nat),
        forall|k: int|
            0 <= k < pieces.len() ==> #[trigger] pieces[k]@ == encoded_piece(input@, k as nat),
        pieces@.map_values(|p: Vec<u8>| p@).flatten() == encoding(input@),
{
    let n = input.len();
    let blocks = n / 5;
    let ghost head = input@.take(5 * blocks as int);
    let ghost tail = input@.skip(5 * blocks as int);
    proof {
        vstd::arithmetic::div_mod::lemma_fundamental_div_mod(n as int, 5);
        assert(head + tail =~= input@);
        vstd::arithmetic::div_mod::lemma_mod_multiples_basic(blocks as int, 5);
        lemma_encoding_append(head, tail);
        lemma_encoding_ascii(head);
        lemma_encoding_ascii(tail);
        lemma_encoding_ascii(input@);
        lemma_piece_ends(n as nat);
        vstd::arithmetic::div_mod::lemma_fundamental_div_mod_converse(
            (8 * (5 * blocks) + 4) as int,
            5,
            (8 * blocks) as int,
            4,
        );
        assert(symbol_count(head.len()) == 8 * blocks);
    }
    let mut pieces: Vec<Vec<u8>> = Vec::new();
    let mut b: usize = 0;
    while b < blocks
        invariant
            n == input.len(),
            blocks == n / 5,
            b <= blocks,
            pieces.len() == b,
            forall|k: int| 0 <= k < b ==> #[trigger] pieces[k]@ == encoded_piece(input@, k as nat),
        decreases blocks - b,
    {
        proof {
            lemma_block_piece(input@, b as int);
        }
        let symbols = encode_block(&input[5 * b..5 * b + 5]);
        let mut piece: Vec<u8> = Vec::new();
        let mut j: usize = 0;
        while j < 8
            invariant
                j <= 8,
                piece@ == symbols@.take(j as int),
            decreases 8 - j,
        {
            piece.push(symbols[j]);
            proof {
                assert(symbols@.take(j + 1) =~= symbols@.take(j as int).push(symbols@[j as int]));
            }
            j += 1;
        }
        proof {
            assert(symbols@.take(8) =~= symbols@);
            assert(input@.subrange(5 * b as int, 5 * b + 5) =~= input@.subrange(
                5 * b as int,
                5 * b + 5,
            ));
            assert(piece_end(n as nat, b as nat) == 8 * b);
            assert(piece_end(n as nat, (b + 1) as nat) == 8 * b + 8);
        }
        pieces.push(piece);
        b += 1;
    }
    let mut symbols = [0u8; 7];
    let count = write_encoded(&input[5 * blocks..n], &mut symbols);
    proof {
        assert(input@.subrange(5 * blocks as int, n as int) =~= tail);
    }
    let mut j: usize = 0;
    while j < count
        invariant
            n == input.len(),
            blocks == n / 5,
            j <= count,
            count == symbol_count(tail.len()),
            count <= 7,
            symbols@.take(count as int) == encoding(tail),
            encoding(input@) == encoding(head) + encoding(tail),
            encoding(head).len() == 8 * blocks,
            piece_count(n as nat) == blocks + count,
            pieces.len() == blocks + j,
            forall|k: int|
                0 <= k < blocks + j ==> #[trigger] pieces[k]@ == encoded_piece(input@, k as nat),
        decreases count - j,
    {
        let piece = vec![symbols[j]];
        proof {
            lemma_piece_ends(n as nat);
            let k = (blocks + j) as nat;
            assert(piece_end(n as nat, k) == 8 * blocks + j);
            assert(piece_end(n as nat, k + 1) == 8 * blocks + j + 1);
            assert(symbols@[j as int] == symbols@.take(count as int)[j as int]);
            assert(encoding(input@)[8 * blocks + j] == encoding(tail)[j as int]);
            assert(piece@ =~= encoded_piece(input@, k));
        }
        pieces.push(piece);
        j += 1;
    }
    proof {
        let joined = pieces@.map_values(|p: Vec<u8>| p@);
        let e = encoding(input@);
        assert forall|k: int| 0 <= k < joined.len() implies #[trigger] joined[k] == e.subrange(
            piece_end(n as nat, k as nat) as int,
            piece_end(n as nat, (k + 1) as nat) as int,
        ) by {
            assert(joined[k] == pieces[k]@);
        }
        lemma_pieces_join(e, n as nat, joined);
        assert(e.take(e.len() as int) =~= e);
        joined.lemma_flatten_and_flatten_alt_are_equivalent();
    }
    pieces
}

/// Encodes `input` and writes the result into `sink`, without allocating:
/// each full five-byte block as one string of eight symbols, then each
/// symbol of the tail as one character. These are the pieces that
/// [`encoded_pieces`] gives, handed over in order.
///
/// When the bit length of `input` is not a multiple of five, the final
/// symbol is padded with zero bits on the right (see [`encode`]).
///
/// # Errors
///
/// Propagates the first error returned by the sink, handing it nothing
/// more. An empty input hands the sink nothing, so it always succeeds.
pub fn encode_into<W>(input: &[u8], mut sink: W) -> (result: core::fmt::Result)
    where
        W: core::fmt::Write,
    ensures
        input@.len() == 0 ==> result is Ok,
{
    let n = input.len();
    let blocks = n / 5;
    let ghost e = encoding(input@);
    // What the sink has been handed so far, piece by piece.
    let ghost mut handed: Seq<Seq<u8>> = Seq::empty();
    proof {
        lemma_encoding_ascii(input@);
        lemma_piece_ends(n as nat);
        lemma_tail_pieces(input@);
        assert(e.take(0) =~= Seq::<u8>::empty());
    }
    let mut b: usize = 0;
    while b < blocks
        invariant
            n == input.len(),
            e == encoding(input@),
            blocks == n / 5,
            b <= blocks,
            is_ascii_bytes(e),
            e.len() == symbol_count(n as nat),
            piece_end(n as nat, piece_count(n as nat)) == symbol_count(n as nat),
            blocks <= piece_count(n as nat),
            handed.len() == b,
            forall|j: int| 0 <= j < b ==> #[trigger] handed[j] == encoded_piece(input@, j as nat),
            handed.flatten_alt() == e.take(piece_end(n as nat, b as nat) as int),
        decreases blocks - b,
    {
        proof {
            lemma_block_piece(input@, b as int);
        }
        let symbols = encode_block(&input[5 * b..5 * b + 5]);
        proof {
            assert(input@.subrange(5 * b as int, 5 * b + 5) =~= input@.subrange(
                5 * b as int,
                5 * b + 5,
            ));
            assert(piece_end(n as nat, b as nat) == 8 * b);
            assert(piece_end(n as nat, (b + 1) as nat) == 8 * b + 8);
            assert(symbols@ == encoded_piece(input@, b as nat));
            assert forall|t: int| 0 <= t < symbols@.len() implies #[trigger] symbols@[t] < 128 by {
                assert(symbols@[t] == e[8 * b + t]);
            }
        }
        sink_write_str(&mut sink, ascii_str(&symbols))?;
        proof {
            handed = handed.push(symbols@);
            lemma_pieces_join(e, n as nat, handed);
        }
        b += 1;
    }
    let mut tail_symbols = [0u8; 7];
    let count = write_encoded(&input[5 * blocks..n], &mut tail_symbols);
    let ghost tail = input@.skip(5 * blocks as int);
    proof {
        assert(input@.subrange(5 * blocks as int, n as int) =~= tail);
        lemma_encoding_ascii(tail);
    }
    let mut j: usize = 0;
    while j < count
        invariant
            n == input.len(),
            e == encoding(input@),
            blocks == n / 5,
            tail == input@.skip(5 * blocks as int),
            j <= count,
            count == symbol_count(tail.len()),
            count <= 7,
            tail_symbols@.take(count as int) == encoding(tail),
            is_ascii_bytes(encoding(tail)),
            piece_end(n as nat, piece_count(n as nat)) == symbol_count(n as nat),
            e.len() == symbol_count(n as nat),
            piece_count(n as nat) == blocks + count,
            forall|t: int|
                0 <= t < count ==> #[trigger] encoded_piece(input@, (blocks + t) as nat) == seq![
                    encoding(tail)[t],
                ],
            handed.len() == blocks + j,
            forall|t: int|
                0 <= t < blocks + j ==> #[trigger] handed[t] == encoded_piece(input@, t as nat),
            handed.flatten_alt() == e.take(piece_end(n as nat, (blocks + j) as nat) as int),
        decreases count - j,
    {
        let symbol = tail_symbols[j];
        proof {
            assert(symbol == tail_symbols@.take(count as int)[j as int]);
            assert(encoded_piece(input@, (blocks + j) as nat) == seq![symbol]);
        }
        sink_write_char(&mut sink, symbol as char)?;
        proof {
            handed = handed.push(seq![symbol]);
            assert forall|t: int| 0 <= t < handed.len() implies #[trigger] handed[t] == e.subrange(
                piece_end(n as nat, t as nat) as int,
                piece_end(n as nat, (t + 1) as nat) as int,
            ) by {
                assert(handed[t] == encoded_piece(input@, t as nat));
            }
            lemma_pieces_join(e, n as nat, handed);
        }
        j += 1;
    }
    Ok(())
}

} // verus!
