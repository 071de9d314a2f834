//! The mathematical model of the encoding.
//!
//! A payload of `n` bytes is a string of `8n` bits. Its encoding splits
//! that string into 5-bit groups, padding the last group with zero bits on
//! the right, and spells each group with [`ALPHABET`]. Decoding reads the
//! symbols back as a string of 5-bit groups and keeps the whole bytes at
//! its front.

use crate::alphabet::{is_symbol, symbol_value, ALPHABET};
use crate::radix::{
    be_digits, be_value, digits_below, lemma_be_digits_shape, lemma_be_digits_split,
    lemma_be_value_append, lemma_be_value_bound, lemma_be_value_of_digits,
    lemma_digits_of_be_value, lemma_width_facts, valid_width,
};
use vstd::arithmetic::div_mod::{
    lemma_div_denominator, lemma_div_multiples_vanish, lemma_fundamental_div_mod,
    lemma_fundamental_div_mod_converse, lemma_mod_mod, lemma_mod_multiples_basic,
    lemma_mod_pos_bound, lemma_multiply_divide_lt, lemma_small_mod,
};
use vstd::arithmetic::power2::{lemma2_to64, lemma_pow2_adds, lemma_pow2_pos, pow2};
use vstd::prelude::*;

verus! {

/// Number of `to`-bit digits that hold `total` bits: `ceil(total / to)`.
pub open spec fn digit_count(total: nat, to: nat) -> nat {
    ((total + to - 1) as nat) / to
}

/// Reads `src` as a string of `from`-bit digits and regroups its bits into
/// `to`-bit digits, padding the last one with zero bits on the right.
pub open spec fn regroup(src: Seq<u8>, from: nat, to: nat) -> Seq<u8> {
    let total = from * src.len();
    let count = digit_count(total, to);
    be_digits(be_value(src, from) * pow2((to * count - total) as nat), count, to)
}

/// The 5-bit values of the encoding of `payload`.
pub open spec fn encoded_values(payload: Seq<u8>) -> Seq<u8> {
    regroup(payload, 8, 5)
}

/// Spells 5-bit values with [`ALPHABET`].
pub open spec fn spell(values: Seq<u8>) -> Seq<u8> {
    values.map_values(|v: u8| ALPHABET@[v as int])
}

/// The Crockford encoding of `payload`.
pub open spec fn encoding(payload: Seq<u8>) -> Seq<u8> {
    spell(encoded_values(payload))
}

/// Number of symbols in the encoding of `n` bytes: `ceil(8n / 5)`.
pub open spec fn symbol_count(n: nat) -> nat {
    (8 * n + 4) / 5
}

/// Number of whole bytes that `c` symbols carry: `floor(5c / 8)`.
pub open spec fn byte_count(c: nat) -> nat {
    (5 * c) / 8
}

/// Number of bits that `c` symbols carry beyond their whole bytes.
pub open spec fn leftover_bits(c: nat) -> nat {
    (5 * c) % 8
}

/// The values of the bytes of `input` that are symbols, in order; every
/// other byte is skipped.
pub open spec fn symbol_values(input: Seq<u8>) -> Seq<u8>
    decreases input.len(),
{
    if input.len() == 0 {
        Seq::empty()
    } else {
        let rest = symbol_values(input.drop_last());
        if is_symbol(input.last()) {
            rest.push(symbol_value(input.last()))
        } else {
            rest
        }
    }
}

/// The whole bytes that the 5-bit `values` carry; trailing bits that do not
/// complete a byte are discarded.
pub open spec fn decoded_values(values: Seq<u8>) -> Seq<u8> {
    be_digits(
        be_value(values, 5) / pow2(leftover_bits(values.len())),
        byte_count(values.len()),
        8,
    )
}

/// The payload that `input` decodes to when every non-symbol is skipped.
pub open spec fn decoding(input: Seq<u8>) -> Seq<u8> {
    decoded_values(symbol_values(input))
}

/// The bytes that `input` decodes to when trailing bits are kept as a
/// final, left-aligned partial byte.
pub open spec fn flushed_decoding(input: Seq<u8>) -> Seq<u8> {
    regroup(symbol_values(input), 5, 8)
}

/// Whether `values` is the encoding of the bytes it decodes to: the
/// trailing bits are fewer than a symbol and all zero.
pub open spec fn is_canonical(values: Seq<u8>) -> bool {
    &&& leftover_bits(values.len()) < 5
    &&& be_value(values, 5) % pow2(leftover_bits(values.len())) == 0
}

/// `seq` cut or extended with `fill` to exactly `size` elements.
pub open spec fn fit(seq: Seq<u8>, size: nat, fill: u8) -> Seq<u8> {
    Seq::new(size, |i: int| if i < seq.len() { seq[i] } else { fill })
}

/// Every sequence of bytes is a sequence of 8-bit digits.
pub proof fn lemma_bytes_below(bytes: Seq<u8>)
    ensures
        digits_below(bytes, 8),
{
    lemma2_to64();
}

/// Length, digit range, and value of a regrouping.
pub proof fn lemma_regroup_shape(src: Seq<u8>, from: nat, to: nat)
    requires
        valid_width(from),
        valid_width(to),
        digits_below(src, from),
    ensures
        ({
            let total = from * src.len();
            let count = digit_count(total, to);
            let pad = (to * count - total) as nat;
            &&& total <= to * count
            &&& pad < to
            &&& regroup(src, from, to).len() == count
            &&& digits_below(regroup(src, from, to), to)
            &&& be_value(regroup(src, from, to), to) == be_value(src, from) * pow2(pad)
        }),
{
    let total = from * src.len();
    let count = digit_count(total, to);
    assert(total <= to * count && to * count < total + to) by (nonlinear_arith)
        requires
            count == ((total + to - 1) as nat) / to,
            to == 5 || to == 8,
    ;
    let pad = (to * count - total) as nat;
    lemma_be_digits_shape(be_value(src, from) * pow2(pad), count, to);
    lemma_be_value_of_digits(be_value(src, from) * pow2(pad), count, to);
    lemma_be_value_bound(src, from);
    lemma_pow2_adds(total, pad);
    lemma_pow2_pos(pad);
    let x = be_value(src, from) * pow2(pad);
    assert(x < pow2(total) * pow2(pad)) by (nonlinear_arith)
        requires
            be_value(src, from) < pow2(total),
            pow2(pad) > 0,
            x == be_value(src, from) * pow2(pad),
    ;
    assert(total + pad == to * count);
    lemma_small_mod(x, pow2(to * count));
}

/// A regrouping is determined by its length and value.
pub proof fn lemma_regroup_unique(src: Seq<u8>, from: nat, to: nat, digits: Seq<u8>)
    requires
        valid_width(to),
        digits_below(digits, to),
        digits.len() == digit_count(from * src.len(), to),
        be_value(digits, to) == be_value(src, from) * pow2(
            (to * digit_count(from * src.len(), to) - from * src.len()) as nat,
        ),
    ensures
        digits == regroup(src, from, to),
{
    lemma_digits_of_be_value(digits, to);
}

/// Appending a digit to a big-endian number.
pub proof fn lemma_be_value_push(digits: Seq<u8>, d: u8, width: nat)
    ensures
        be_value(digits.push(d), width) == be_value(digits, width) * pow2(width) + d,
{
    assert(digits.push(d).drop_last() =~= digits);
}

/// Streaming step: `w` new bits enter the pending part.
pub proof fn lemma_stream_push(n: nat, done: nat, bits: nat, pending: nat, w: nat, y: nat)
    requires
        n == done * pow2(bits) + pending,
    ensures
        n * pow2(w) + y == done * pow2(bits + w) + (pending * pow2(w) + y),
{
    lemma_pow2_adds(bits, w);
    assert(n * pow2(w) == done * (pow2(bits) * pow2(w)) + pending * pow2(w)) by (nonlinear_arith)
        requires
            n == done * pow2(bits) + pending,
    ;
}

/// Streaming step: the top `w` pending bits leave as one digit.
pub proof fn lemma_stream_emit(done: nat, bits: nat, pending: nat, w: nat)
    requires
        w <= bits,
        pending < pow2(bits),
    ensures
        ({
            let low = (bits - w) as nat;
            &&& pending / pow2(low) < pow2(w)
            &&& done * pow2(bits) + pending == (done * pow2(w) + pending / pow2(low)) * pow2(low)
                + pending % pow2(low)
        }),
{
    let low = (bits - w) as nat;
    lemma_pow2_adds(w, low);
    lemma_pow2_pos(low);
    lemma_pow2_pos(w);
    lemma_fundamental_div_mod(pending as int, pow2(low) as int);
    assert(pow2(w) * pow2(low) == pow2(low) * pow2(w)) by (nonlinear_arith);
    assert(w + low == bits);
    lemma_multiply_divide_lt(pending as int, pow2(low) as int, pow2(w) as int);
    let q = pending / pow2(low);
    let r = pending % pow2(low);
    assert(done * pow2(bits) + pending == (done * pow2(w) + q) * pow2(low) + r) by (nonlinear_arith)
        requires
            pow2(bits) == pow2(w) * pow2(low),
            pending == pow2(low) * q + r,
    ;
}

/// Streaming end: the last `bits < w` pending bits leave left-aligned.
pub proof fn lemma_stream_flush(done: nat, bits: nat, pending: nat, w: nat)
    requires
        bits <= w,
    ensures
        done * pow2(w) + pending * pow2((w - bits) as nat) == (done * pow2(bits) + pending)
            * pow2((w - bits) as nat),
{
    lemma_pow2_adds(bits, (w - bits) as nat);
    assert(done * pow2(w) + pending * pow2((w - bits) as nat) == (done * pow2(bits) + pending)
        * pow2((w - bits) as nat)) by (nonlinear_arith)
        requires
            pow2(w) == pow2(bits) * pow2((w - bits) as nat),
    ;
}

/// A streaming regrouping that has consumed `k` source digits and emitted
/// `emitted` holds a prefix of the full regrouping.
pub proof fn lemma_regroup_prefix(
    src: Seq<u8>,
    from: nat,
    to: nat,
    k: nat,
    emitted: Seq<u8>,
    bits: nat,
    pending: nat,
)
    requires
        valid_width(from),
        valid_width(to),
        digits_below(src, from),
        digits_below(emitted, to),
        k <= src.len(),
        from * k == to * emitted.len() + bits,
        be_value(src.take(k as int), from) == be_value(emitted, to) * pow2(bits) + pending,
        pending < pow2(bits),
    ensures
        emitted.len() <= regroup(src, from, to).len(),
        emitted == regroup(src, from, to).take(emitted.len() as int),
{
    let n = src.len();
    let total = from * n;
    let count = digit_count(total, to);
    let pad = (to * count - total) as nat;
    let s = emitted.len();
    lemma_regroup_shape(src, from, to);
    let head = src.take(k as int);
    let rest = src.skip(k as int);
    assert(head + rest =~= src);
    lemma_be_value_append(head, rest, from);
    crate::radix::lemma_digits_below_prefix(src, from, k as int);
    lemma_be_value_bound(rest, from);
    let nk = be_value(head, from);
    let nr = be_value(rest, from);
    let rb = from * rest.len();
    assert(rb == total - from * k) by (nonlinear_arith)
        requires
            rest.len() == n - k,
            rb == from * rest.len(),
            total == from * n,
            k <= n,
    ;
    assert(s <= count) by (nonlinear_arith)
        requires
            to * s <= from * k,
            from * k <= total,
            total <= to * count,
            to > 0,
    ;
    let high = (count - s) as nat;
    let e = to * high;
    assert(e == to * count - to * s) by (nonlinear_arith)
        requires
            e == to * high,
            high == count - s,
            s <= count,
    ;
    let a = rb + pad;
    assert(e == a + bits);
    let x = be_value(src, from) * pow2(pad);
    lemma_pow2_adds(rb, pad);
    lemma_pow2_pos(pad);
    lemma_pow2_pos(rb);
    assert(x == nk * pow2(a) + nr * pow2(pad) && nr * pow2(pad) < pow2(a)) by (nonlinear_arith)
        requires
            x == be_value(src, from) * pow2(pad),
            be_value(src, from) == nk * pow2(rb) + nr,
            pow2(a) == pow2(rb) * pow2(pad),
            nr < pow2(rb),
            pow2(pad) > 0,
    ;
    lemma_fundamental_div_mod_converse(x as int, pow2(a) as int, nk as int, (nr * pow2(pad)) as int);
    lemma_pow2_adds(a, bits);
    lemma_pow2_pos(bits);
    lemma_div_denominator(x as int, pow2(a) as int, pow2(bits) as int);
    lemma_fundamental_div_mod_converse(
        nk as int,
        pow2(bits) as int,
        be_value(emitted, to) as int,
        pending as int,
    );
    assert(x / pow2(e) == be_value(emitted, to));
    lemma_be_digits_split(x, s, high, to);
    assert((s + high) as nat == count);
    lemma_be_digits_shape(x / pow2(e), s, to);
    lemma_digits_of_be_value(emitted, to);
    assert(regroup(src, from, to).take(s as int) =~= be_digits(x / pow2(e), s, to));
}

/// Decoding an encoding gives back the payload, and every encoding is
/// canonical.
pub proof fn lemma_decode_encoded(payload: Seq<u8>)
    ensures
        encoded_values(payload).len() == symbol_count(payload.len()),
        digits_below(encoded_values(payload), 5),
        is_canonical(encoded_values(payload)),
        decoded_values(encoded_values(payload)) == payload,
{
    let v = encoded_values(payload);
    let n = payload.len();
    lemma_bytes_below(payload);
    lemma_regroup_shape(payload, 8, 5);
    let c = v.len();
    let pad = (5 * c - 8 * n) as nat;
    lemma_fundamental_div_mod_converse((5 * c) as int, 8, n as int, pad as int);
    assert(leftover_bits(c) == pad && byte_count(c) == n);
    let nv = be_value(payload, 8);
    lemma_pow2_pos(pad);
    lemma_mod_multiples_basic(nv as int, pow2(pad) as int);
    assert(nv * pow2(pad) == pow2(pad) * nv) by (nonlinear_arith);
    lemma_div_multiples_vanish(nv as int, pow2(pad) as int);
    lemma_digits_of_be_value(payload, 8);
}

/// A canonical string of 5-bit values is the encoding of what it decodes to.
pub proof fn lemma_encode_decoded(values: Seq<u8>)
    requires
        digits_below(values, 5),
        is_canonical(values),
    ensures
        encoded_values(decoded_values(values)) == values,
{
    let c = values.len();
    let r = leftover_bits(c);
    let m = byte_count(c);
    let d = be_value(values, 5);
    let q = decoded_values(values);
    lemma_width_facts(8);
    lemma_be_digits_shape(d / pow2(r), m, 8);
    lemma_be_value_of_digits(d / pow2(r), m, 8);
    lemma_be_value_bound(values, 5);
    lemma_fundamental_div_mod((5 * c) as int, 8);
    assert(5 * c == 8 * m + r);
    lemma_pow2_adds(8 * m, r);
    lemma_pow2_pos(r);
    lemma_pow2_pos(8 * m);
    assert(d < pow2(r) * pow2(8 * m)) by (nonlinear_arith)
        requires
            d < pow2(8 * m) * pow2(r),
    ;
    lemma_multiply_divide_lt(d as int, pow2(r) as int, pow2(8 * m) as int);
    lemma_small_mod(d / pow2(r), pow2(8 * m));
    assert(be_value(q, 8) == d / pow2(r));
    lemma_fundamental_div_mod_converse((8 * m + 4) as int, 5, c as int, (4 - r) as int);
    assert(digit_count(8 * q.len(), 5) == c);
    lemma_fundamental_div_mod(d as int, pow2(r) as int);
    assert((d / pow2(r)) * pow2(r) == pow2(r) * (d / pow2(r))) by (nonlinear_arith);
    lemma_regroup_unique(q, 8, 5, values);
}

/// A register that streams `from`-bit digits out of `source` into `to`-bit
/// digits has emitted `emitted`, and `bits` bits of `source` remain pending
/// in the low bits of `buffer`.
pub open spec fn streamed(
    source: Seq<u8>,
    from: nat,
    emitted: Seq<u8>,
    to: nat,
    bits: nat,
    buffer: u64,
) -> bool {
    &&& from * source.len() == to * emitted.len() + bits
    &&& digits_below(emitted, to)
    &&& be_value(source, from) == be_value(emitted, to) * pow2(bits) + (buffer as nat) % pow2(
        bits,
    )
}

/// Streaming starts with nothing consumed and nothing pending.
pub proof fn lemma_streamed_start(from: nat, to: nat, buffer: u64)
    ensures
        streamed(Seq::empty(), from, Seq::empty(), to, 0, buffer),
{
    lemma2_to64();
    assert(from * 0 == 0) by (nonlinear_arith);
    assert(to * 0 == 0) by (nonlinear_arith);
}

/// Shifting the next source digit into the register.
pub proof fn lemma_streamed_push(
    source: Seq<u8>,
    from: nat,
    emitted: Seq<u8>,
    to: nat,
    bits: nat,
    buffer: u64,
    digit: u8,
)
    requires
        streamed(source, from, emitted, to, bits, buffer),
        from == 5 || from == 8,
        bits + from <= 63,
        (digit as nat) < pow2(from),
    ensures
        streamed(
            source.push(digit),
            from,
            emitted,
            to,
            bits + from,
            (buffer << from as u64) | (digit as u64),
        ),
{
    crate::bitbuf::lemma_push(buffer, digit as u64, bits as u64, from as u64);
    lemma_be_value_push(source, digit, from);
    lemma_stream_push(
        be_value(source, from),
        be_value(emitted, to),
        bits,
        (buffer as nat) % pow2(bits),
        from,
        digit as nat,
    );
    assert(from * source.push(digit).len() == from * source.len() + from) by (nonlinear_arith);
}

/// Emitting the top `to` pending bits as one digit.
pub proof fn lemma_streamed_emit(
    source: Seq<u8>,
    from: nat,
    emitted: Seq<u8>,
    to: nat,
    bits: nat,
    buffer: u64,
)
    requires
        streamed(source, from, emitted, to, bits, buffer),
        to == 5 || to == 8,
        to <= bits,
        bits <= 63,
    ensures
        ({
            let low = (bits - to) as nat;
            let digit = ((buffer >> low as u64) as nat % pow2(to)) as u8;
            &&& (digit as nat) == (buffer >> low as u64) as nat % pow2(to)
            &&& streamed(source, from, emitted.push(digit), to, low, buffer)
        }),
{
    let low = (bits - to) as nat;
    crate::bitbuf::lemma_take(buffer, low as u64, to as u64);
    lemma_width_facts(to);
    lemma_pow2_pos(bits);
    lemma_pow2_pos(low);
    let pending = (buffer as nat) % pow2(bits);
    lemma_mod_pos_bound(buffer as int, pow2(bits) as int);
    lemma_stream_emit(be_value(emitted, to), bits, pending, to);
    lemma_pow2_adds(low, to);
    assert(low + to == bits);
    lemma_mod_mod(buffer as int, pow2(low) as int, pow2(to) as int);
    let digit = ((buffer >> low as u64) as nat % pow2(to)) as u8;
    lemma_mod_pos_bound((buffer >> low as u64) as int, pow2(to) as int);
    lemma_be_value_push(emitted, digit, to);
    assert(digits_below(emitted.push(digit), to)) by {
        assert forall|i: int| 0 <= i < emitted.push(digit).len() implies (
        #[trigger] emitted.push(digit)[i] as nat) < pow2(to) by {
            if i < emitted.len() {
                assert(emitted.push(digit)[i] == emitted[i]);
            }
        }
    }
    assert(to * emitted.push(digit).len() == to * emitted.len() + to) by (nonlinear_arith);
}

/// With nothing pending, streaming has produced the whole regrouping.
pub proof fn lemma_streamed_complete(
    source: Seq<u8>,
    from: nat,
    emitted: Seq<u8>,
    to: nat,
    buffer: u64,
)
    requires
        streamed(source, from, emitted, to, 0, buffer),
        valid_width(to),
    ensures
        emitted == regroup(source, from, to),
{
    lemma2_to64();
    let total = from * source.len();
    lemma_fundamental_div_mod_converse(
        (total + to - 1) as int,
        to as int,
        emitted.len() as int,
        (to - 1) as int,
    );
    assert(be_value(emitted, to) * pow2(0) == be_value(emitted, to)) by (nonlinear_arith)
        requires
            pow2(0) == 1,
    ;
    assert(be_value(source, from) * pow2(0) == be_value(source, from)) by (nonlinear_arith)
        requires
            pow2(0) == 1,
    ;
    lemma_regroup_unique(source, from, to, emitted);
}

/// The last `0 < bits < to` pending bits, left-aligned in a final digit,
/// complete the regrouping.
pub proof fn lemma_streamed_flush(
    source: Seq<u8>,
    from: nat,
    emitted: Seq<u8>,
    to: nat,
    bits: nat,
    buffer: u64,
)
    requires
        streamed(source, from, emitted, to, bits, buffer),
        to == 5 || to == 8,
        0 < bits < to,
    ensures
        ({
            let digit = ((buffer << (to - bits) as u64) as nat % pow2(to)) as u8;
            &&& (digit as nat) == (buffer << (to - bits) as u64) as nat % pow2(to)
            &&& emitted.push(digit) == regroup(source, from, to)
        }),
{
    let shift = (to - bits) as nat;
    crate::bitbuf::lemma_flush(buffer, bits as u64, to as u64);
    lemma_width_facts(to);
    let digit = ((buffer << shift as u64) as nat % pow2(to)) as u8;
    lemma_mod_pos_bound((buffer << shift as u64) as int, pow2(to) as int);
    let pending = (buffer as nat) % pow2(bits);
    lemma_stream_flush(be_value(emitted, to), bits, pending, to);
    lemma_be_value_push(emitted, digit, to);
    let out = emitted.push(digit);
    assert(digits_below(out, to)) by {
        assert forall|i: int| 0 <= i < out.len() implies (#[trigger] out[i] as nat) < pow2(to) by {
            if i < emitted.len() {
                assert(out[i] == emitted[i]);
            }
        }
    }
    let total = from * source.len();
    assert(to * out.len() == to * emitted.len() + to) by (nonlinear_arith)
        requires
            out.len() == emitted.len() + 1,
    ;
    lemma_fundamental_div_mod_converse(
        (total + to - 1) as int,
        to as int,
        out.len() as int,
        (bits - 1) as int,
    );
    lemma_regroup_unique(source, from, to, out);
}

/// Streamed symbols whose pending bits do not fill a byte have produced
/// exactly the whole bytes that those symbols carry.
pub proof fn lemma_streamed_whole_bytes(values: Seq<u8>, out: Seq<u8>, bits: nat, buffer: u64)
    requires
        streamed(values, 5, out, 8, bits, buffer),
        bits < 8,
    ensures
        out == decoded_values(values),
{
    let c = values.len();
    lemma_fundamental_div_mod_converse((5 * c) as int, 8, out.len() as int, bits as int);
    lemma_pow2_pos(bits);
    lemma_mod_pos_bound(buffer as int, pow2(bits) as int);
    lemma_fundamental_div_mod_converse(
        be_value(values, 5) as int,
        pow2(bits) as int,
        be_value(out, 8) as int,
        ((buffer as nat) % pow2(bits)) as int,
    );
    lemma_digits_of_be_value(out, 8);
}

/// The whole bytes that 5-bit `values` carry are the front of their
/// regrouping into bytes, whose last byte may hold the leftover bits.
pub proof fn lemma_decoded_front_of_regroup(values: Seq<u8>)
    ensures
        decoded_values(values).len() == byte_count(values.len()),
        byte_count(values.len()) <= regroup(values, 5, 8).len(),
        decoded_values(values) == regroup(values, 5, 8).take(byte_count(values.len()) as int),
{
    lemma2_to64();
    let c = values.len();
    let v = be_value(values, 5);
    let bc = byte_count(c);
    let lo = leftover_bits(c);
    lemma_fundamental_div_mod((5 * c) as int, 8);
    lemma_mod_pos_bound((5 * c) as int, 8);
    crate::radix::lemma_be_digits_shape(v / pow2(lo), bc, 8);
    let count = digit_count(5 * c, 8);
    if lo == 0 {
        lemma_fundamental_div_mod_converse((5 * c + 7) as int, 8, bc as int, 7);
        assert(count == bc);
        assert((8 * count - 5 * c) as nat == 0);
        assert(v * pow2(0) == v / pow2(0));
        crate::radix::lemma_be_digits_shape(v * pow2(0), count, 8);
        assert(regroup(values, 5, 8).take(bc as int) =~= regroup(values, 5, 8));
    } else {
        lemma_fundamental_div_mod_converse((5 * c + 7) as int, 8, (bc + 1) as int, (lo - 1) as int);
        assert(count == bc + 1);
        let pad = (8 - lo) as nat;
        assert((8 * count - 5 * c) as nat == pad);
        let x = v * pow2(pad);
        lemma_be_digits_split(x, bc, 1, 8);
        assert(8 * 1nat == 8);
        lemma_pow2_adds(pad, lo);
        lemma_pow2_pos(pad);
        lemma_pow2_pos(lo);
        lemma_div_denominator(x as int, pow2(pad) as int, pow2(lo) as int);
        assert(x == pow2(pad) * v) by (nonlinear_arith)
            requires
                x == v * pow2(pad),
        ;
        vstd::arithmetic::div_mod::lemma_div_multiples_vanish(v as int, pow2(pad) as int);
        assert(pad + lo == 8);
        assert(x / pow2(8) == v / pow2(lo));
        crate::radix::lemma_be_digits_shape(x, 1, 8);
        assert(regroup(values, 5, 8) == be_digits(x, count, 8));
        assert(regroup(values, 5, 8).take(bc as int) =~= be_digits(v / pow2(lo), bc, 8));
    }
}

/// Bytes streamed out of a prefix of 5-bit `values` are the front of the
/// whole bytes that all of `values` carry.
pub proof fn lemma_streamed_prefix_bytes(
    values: Seq<u8>,
    k: nat,
    out: Seq<u8>,
    bits: nat,
    buffer: u64,
)
    requires
        digits_below(values, 5),
        k <= values.len(),
        streamed(values.take(k as int), 5, out, 8, bits, buffer),
    ensures
        out.len() <= decoded_values(values).len(),
        out == decoded_values(values).take(out.len() as int),
{
    lemma_pow2_pos(bits);
    lemma_mod_pos_bound(buffer as int, pow2(bits) as int);
    lemma_regroup_prefix(values, 5, 8, k, out, bits, (buffer as nat) % pow2(bits));
    lemma_decoded_front_of_regroup(values);
    let full = regroup(values, 5, 8);
    let c = values.len();
    assert(8 * out.len() <= 5 * c) by (nonlinear_arith)
        requires
            5 * k == 8 * out.len() + bits,
            k <= c,
    ;
    lemma_fundamental_div_mod((5 * c) as int, 8);
    lemma_mod_pos_bound((5 * c) as int, 8);
    assert(out.len() <= byte_count(c)) by (nonlinear_arith)
        requires
            8 * out.len() <= 5 * c,
            5 * c == 8 * byte_count(c) + (5 * c) % 8,
            (5 * c) % 8 < 8,
    ;
    assert(decoded_values(values).take(out.len() as int) =~= full.take(out.len() as int));
}

/// A payload that starts with whole five-byte blocks encodes as the
/// encoding of those blocks followed by the encoding of the rest.
pub proof fn lemma_encoding_append(a: Seq<u8>, c: Seq<u8>)
    requires
        a.len() % 5 == 0,
    ensures
        encoded_values(a + c) == encoded_values(a) + encoded_values(c),
        encoding(a + c) == encoding(a) + encoding(c),
{
    lemma2_to64();
    let na = a.len();
    let nc = c.len();
    let m = na / 5;
    lemma_fundamental_div_mod(na as int, 5);
    let va = be_value(a, 8);
    let vc = be_value(c, 8);
    lemma_be_value_append(a, c, 8);
    lemma_bytes_below(c);
    lemma_be_value_bound(c, 8);
    let cc = digit_count(8 * nc, 5);
    lemma_fundamental_div_mod((8 * nc + 4) as int, 5);
    lemma_mod_pos_bound((8 * nc + 4) as int, 5);
    assert(8 * nc <= 5 * cc && 5 * cc < 8 * nc + 5);
    let pad = (5 * cc - 8 * nc) as nat;
    assert(digit_count(8 * na, 5) == 8 * m) by {
        lemma_fundamental_div_mod_converse((8 * na + 4) as int, 5, (8 * m) as int, 4);
    }
    assert(digit_count(8 * (a + c).len(), 5) == 8 * m + cc) by {
        assert((a + c).len() == na + nc);
        lemma_fundamental_div_mod_converse(
            (8 * (na + nc) + 4) as int,
            5,
            (8 * m + cc) as int,
            (8 * nc + 4 - 5 * cc) as int,
        );
    }
    assert((5 * (8 * m + cc) - 8 * (a + c).len()) as nat == pad);
    assert((5 * (8 * m) - 8 * na) as nat == 0);
    let v = be_value(a + c, 8);
    let x = v * pow2(pad);
    let xc = vc * pow2(pad);
    lemma_pow2_adds(8 * nc, pad);
    assert(8 * nc + pad == 5 * cc);
    lemma_pow2_pos(pad);
    assert(x == va * pow2(5 * cc) + xc && xc < pow2(5 * cc)) by (nonlinear_arith)
        requires
            x == v * pow2(pad),
            xc == vc * pow2(pad),
            v == va * pow2(8 * nc) + vc,
            pow2(5 * cc) == pow2(8 * nc) * pow2(pad),
            vc < pow2(8 * nc),
            pow2(pad) > 0,
    ;
    lemma_fundamental_div_mod_converse(x as int, pow2(5 * cc) as int, va as int, xc as int);
    lemma_be_digits_split(x, 8 * m, cc, 5);
    lemma_be_value_of_digits(x, cc, 5);
    lemma_be_digits_shape(x, cc, 5);
    lemma_digits_of_be_value(be_digits(x, cc, 5), 5);
    assert(be_digits(x, cc, 5) == be_digits(xc, cc, 5));
    assert(va * pow2(0) == va);
    assert(encoded_values(a) == be_digits(va, 8 * m, 5));
    assert(encoded_values(a + c) =~= encoded_values(a) + encoded_values(c));
    assert(spell(encoded_values(a) + encoded_values(c)) =~= spell(encoded_values(a)) + spell(
        encoded_values(c),
    ));
}

/// Skipping non-symbols distributes over concatenation.
pub proof fn lemma_symbol_values_append(a: Seq<u8>, b: Seq<u8>)
    ensures
        symbol_values(a + b) == symbol_values(a) + symbol_values(b),
    decreases b.len(),
{
    if b.len() == 0 {
        assert(a + b =~= a);
        assert(symbol_values(a) + symbol_values(b) =~= symbol_values(a));
    } else {
        assert((a + b).drop_last() =~= a + b.drop_last());
        lemma_symbol_values_append(a, b.drop_last());
        if is_symbol(b.last()) {
            assert(symbol_values(a + b) =~= symbol_values(a) + symbol_values(b));
        } else {
            assert(symbol_values(a + b) =~= symbol_values(a) + symbol_values(b));
        }
    }
}

/// Skipping non-symbols one byte further.
pub proof fn lemma_symbol_values_step(input: Seq<u8>, i: int)
    requires
        0 <= i < input.len(),
    ensures
        symbol_values(input.take(i + 1)) == if is_symbol(input[i]) {
            symbol_values(input.take(i)).push(symbol_value(input[i]))
        } else {
            symbol_values(input.take(i))
        },
{
    assert(input.take(i + 1).drop_last() =~= input.take(i));
}

/// Symbol values are 5-bit digits, no more than the bytes they come from.
pub proof fn lemma_symbol_values_shape(input: Seq<u8>)
    ensures
        digits_below(symbol_values(input), 5),
        symbol_values(input).len() <= input.len(),
    decreases input.len(),
{
    lemma2_to64();
    if input.len() > 0 {
        lemma_symbol_values_shape(input.drop_last());
        let rest = symbol_values(input.drop_last());
        let all = symbol_values(input);
        assert forall|i: int| 0 <= i < all.len() implies (#[trigger] all[i] as nat) < pow2(5) by {
            if i < rest.len() {
                assert(all[i] == rest[i]);
            }
        }
    }
}

/// The values of a prefix of the input are a prefix of its values.
pub proof fn lemma_symbol_values_prefix(input: Seq<u8>, i: int)
    requires
        0 <= i <= input.len(),
    ensures
        symbol_values(input.take(i)).len() <= symbol_values(input).len(),
        symbol_values(input.take(i)) == symbol_values(input).take(
            symbol_values(input.take(i)).len() as int,
        ),
{
    assert(input.take(i) + input.skip(i) =~= input);
    lemma_symbol_values_append(input.take(i), input.skip(i));
    assert(symbol_values(input.take(i)) =~= symbol_values(input).take(
        symbol_values(input.take(i)).len() as int,
    ));
}

/// A canonical string of 5-bit values denotes the value of its payload
/// followed by its leftover zero bits.
pub proof fn lemma_canonical_value(values: Seq<u8>)
    requires
        digits_below(values, 5),
        is_canonical(values),
    ensures
        be_value(decoded_values(values), 8) * pow2(leftover_bits(values.len())) == be_value(
            values,
            5,
        ),
{
    lemma_encode_decoded(values);
    lemma_decode_encoded(decoded_values(values));
    let q = decoded_values(values);
    lemma_bytes_below(q);
    lemma_regroup_shape(q, 8, 5);
    let c = values.len();
    let r = leftover_bits(c);
    lemma_fundamental_div_mod((5 * c) as int, 8);
    lemma_fundamental_div_mod((8 * q.len() + 4) as int, 5);
}

} // verus!
