//! Facts about the 64-bit shift registers that the encoder and decoders
//! stream bits through.
//!
//! A register holds the pending bits in its low `bits` bits; the bits
//! above them are stale and never read. Every fact here is stated over
//! `x % 2^bits`, the pending part.

use vstd::arithmetic::div_mod::lemma_mod_pos_bound;
use vstd::arithmetic::power2::{lemma_pow2_adds, lemma_pow2_pos, lemma2_to64, pow2};
use vstd::bits::{
    low_bits_mask, lemma_u64_low_bits_mask_is_mod, lemma_u64_pow2_no_overflow,
    lemma_u64_shl_is_mul, lemma_u64_shr_is_div,
};
use vstd::prelude::*;

verus! {

/// `1 << b` is `2^b`.
pub proof fn lemma_shl_one(b: u64)
    requires
        b < 64,
    ensures
        (1u64 << b) as nat == pow2(b as nat),
{
    lemma_u64_pow2_no_overflow(b as nat);
    lemma_u64_shl_is_mul(1, b);
}

/// Masking the low `b` bits is reduction modulo `2^b`.
pub proof fn lemma_low_mask(x: u64, b: u64)
    requires
        b < 64,
    ensures
        (x & ((1u64 << b) - 1) as u64) as nat == x as nat % pow2(b as nat),
        x as nat % pow2(b as nat) < pow2(b as nat),
{
    lemma_shl_one(b);
    lemma_u64_pow2_no_overflow(b as nat);
    lemma_pow2_pos(b as nat);
    assert(((1u64 << b) - 1) as u64 == low_bits_mask(b as nat) as u64);
    lemma_u64_low_bits_mask_is_mod(x, b as nat);
    lemma_mod_pos_bound(x as int, pow2(b as nat) as int);
}

/// Shifting `k` new low bits into a register: the pending part grows by them.
pub proof fn lemma_push(x: u64, y: u64, b: u64, k: u64)
    requires
        k == 5 || k == 8,
        b + k <= 63,
        (y as nat) < pow2(k as nat),
    ensures
        (((x << k) | y) as nat) % pow2((b + k) as nat) == (x as nat % pow2(b as nat)) * pow2(
            k as nat,
        ) + y,
{
    lemma_shl_one(k);
    assert(((x << k) | y) & ((1u64 << (b + k)) - 1) as u64 == ((x & ((1u64 << b) - 1) as u64)
        << k) | y) by (bit_vector)
        requires
            b + k <= 63,
            k <= 8,
            y < (1u64 << k),
    ;
    lemma_low_mask((x << k) | y, (b + k) as u64);
    lemma_low_mask(x, b);
    let w = x & ((1u64 << b) - 1) as u64;
    lemma_shl_one(b);
    assert((w << k) | y == (w << k) + y) by (bit_vector)
        requires
            w < (1u64 << b),
            b + k <= 63,
            k <= 8,
            y < (1u64 << k),
    ;
    lemma_shl_one(b);
    lemma_u64_pow2_no_overflow((b + k) as nat);
    lemma_pow2_adds(b as nat, k as nat);
    assert((w as nat) * pow2(k as nat) < pow2(b as nat) * pow2(k as nat)) by (nonlinear_arith)
        requires
            (w as nat) < pow2(b as nat),
            pow2(k as nat) > 0,
    ;
    lemma_u64_shl_is_mul(w, k);
}

/// The `k` bits of a register starting at bit `s`.
pub proof fn lemma_take(x: u64, s: u64, k: u64)
    requires
        k == 5 || k == 8,
        s + k <= 63,
    ensures
        ((x >> s) & ((1u64 << k) - 1) as u64) as nat == (x as nat % pow2((s + k) as nat)) / pow2(
            s as nat,
        ),
        ((x >> s) & ((1u64 << k) - 1) as u64) as nat == (x >> s) as nat % pow2(k as nat),
{
    assert((x >> s) & ((1u64 << k) - 1) as u64 == (x & ((1u64 << (s + k)) - 1) as u64) >> s)
        by (bit_vector)
        requires
            s + k <= 63,
            k <= 8,
    ;
    lemma_low_mask(x, (s + k) as u64);
    lemma_low_mask(x >> s, k);
    lemma_u64_shr_is_div(x & ((1u64 << (s + k)) - 1) as u64, s);
}

/// The last `b < k` pending bits, left-aligned in a `k`-bit digit.
pub proof fn lemma_flush(x: u64, b: u64, k: u64)
    requires
        k == 5 || k == 8,
        1 <= b < k,
    ensures
        ((x << (k - b) as u64) & ((1u64 << k) - 1) as u64) as nat == (x as nat % pow2(b as nat))
            * pow2((k - b) as nat),
        ((x << (k - b) as u64) & ((1u64 << k) - 1) as u64) as nat == (x << (k - b) as u64) as nat
            % pow2(k as nat),
{
    lemma_low_mask(x << (k - b) as u64, k);
    assert((x << (k - b) as u64) & ((1u64 << k) - 1) as u64 == (x & ((1u64 << b) - 1) as u64)
        << (k - b) as u64) by (bit_vector)
        requires
            k <= 8,
            1 <= b < k,
    ;
    lemma_low_mask(x, b);
    let w = x & ((1u64 << b) - 1) as u64;
    lemma_pow2_adds(b as nat, (k - b) as nat);
    lemma2_to64();
    assert(pow2(k as nat) <= 256);
    lemma_pow2_pos((k - b) as nat);
    assert((w as nat) * pow2((k - b) as nat) < pow2(b as nat) * pow2((k - b) as nat))
        by (nonlinear_arith)
        requires
            (w as nat) < pow2(b as nat),
            pow2((k - b) as nat) > 0,
    ;
    lemma_u64_shl_is_mul(w, (k - b) as u64);
}

/// Shifting a value that fits into a register loses nothing.
pub proof fn lemma_push_exact(x: u64, y: u64, b: u64, k: u64)
    requires
        k == 5 || k == 8,
        b + k <= 63,
        (x as nat) < pow2(b as nat),
        (y as nat) < pow2(k as nat),
    ensures
        ((x << k) | y) as nat == (x as nat) * pow2(k as nat) + y,
{
    lemma_push(x, y, b, k);
    lemma_pow2_pos(b as nat);
    vstd::arithmetic::div_mod::lemma_small_mod(x as nat, pow2(b as nat));
    lemma_pow2_adds(b as nat, k as nat);
    assert((x as nat) * pow2(k as nat) + y < pow2(b as nat) * pow2(k as nat)) by (nonlinear_arith)
        requires
            (x as nat) < pow2(b as nat),
            (y as nat) < pow2(k as nat),
    ;
    lemma_u64_pow2_no_overflow((b + k) as nat);
    lemma_shl_one(b);
    lemma_shl_one(k);
    lemma_shl_one((b + k) as u64);
    assert(((x << k) | y) < (1u64 << (b + k))) by (bit_vector)
        requires
            x < (1u64 << b),
            y < (1u64 << k),
            b + k <= 63,
            k <= 8,
    ;
    vstd::arithmetic::div_mod::lemma_small_mod(((x << k) | y) as nat, pow2((b + k) as nat));
}

} // verus!
