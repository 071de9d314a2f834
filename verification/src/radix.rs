//! Big-endian positional numbers over digits of a fixed power-of-two width.
//!
//! A Crockford string is a sequence of 5-bit digits and a payload is a
//! sequence of 8-bit digits; both are read here as one natural number,
//! most significant digit first.

use vstd::arithmetic::div_mod::{
    lemma_div_denominator, lemma_fundamental_div_mod_converse,
    lemma_mod_breakdown, lemma_mod_pos_bound,
};
use vstd::arithmetic::power2::{lemma2_to64, lemma_pow2_adds, lemma_pow2_pos, pow2};
use vstd::prelude::*;

verus! {

/// The digit widths in use: 5 bits for a symbol, 8 bits for a byte.
pub open spec fn valid_width(width: nat) -> bool {
    width == 5 || width == 8
}

/// `digits` read as a big-endian number in base `2^width`.
pub open spec fn be_value(digits: Seq<u8>, width: nat) -> nat
    decreases digits.len(),
{
    if digits.len() == 0 {
        0
    } else {
        be_value(digits.drop_last(), width) * pow2(width) + digits.last() as nat
    }
}

/// The `count` lowest base-`2^width` digits of `x`, most significant first.
pub open spec fn be_digits(x: nat, count: nat, width: nat) -> Seq<u8>
    decreases count,
{
    if count == 0 {
        Seq::empty()
    } else {
        be_digits(x / pow2(width), (count - 1) as nat, width).push((x % pow2(width)) as u8)
    }
}

/// Every digit of `digits` is below `2^width`.
pub open spec fn digits_below(digits: Seq<u8>, width: nat) -> bool {
    forall|i: int| 0 <= i < digits.len() ==> (#[trigger] digits[i] as nat) < pow2(width)
}

pub proof fn lemma_width_facts(width: nat)
    requires
        valid_width(width),
    ensures
        0 < pow2(width) <= 256,
        pow2(0) == 1,
{
    lemma2_to64();
}

pub proof fn lemma_digits_below_prefix(digits: Seq<u8>, width: nat, k: int)
    requires
        digits_below(digits, width),
        0 <= k <= digits.len(),
    ensures
        digits_below(digits.take(k), width),
        digits_below(digits.skip(k), width),
{
    assert forall|i: int| 0 <= i < digits.take(k).len() implies (#[trigger] digits.take(k)[i]
        as nat) < pow2(width) by {
        assert(digits.take(k)[i] == digits[i]);
    }
    assert forall|i: int| 0 <= i < digits.skip(k).len() implies (#[trigger] digits.skip(k)[i]
        as nat) < pow2(width) by {
        assert(digits.skip(k)[i] == digits[i + k]);
    }
}

/// A number of `k` digits is below `2^(width * k)`.
pub proof fn lemma_be_value_bound(digits: Seq<u8>, width: nat)
    requires
        digits_below(digits, width),
    ensures
        be_value(digits, width) < pow2(width * digits.len()),
    decreases digits.len(),
{
    lemma2_to64();
    if digits.len() > 0 {
        let prefix = digits.drop_last();
        assert(digits_below(prefix, width)) by {
            assert forall|i: int| 0 <= i < prefix.len() implies (#[trigger] prefix[i] as nat)
                < pow2(width) by {
                assert(prefix[i] == digits[i]);
            }
        }
        lemma_be_value_bound(prefix, width);
        let a = be_value(prefix, width);
        let b = pow2(width * prefix.len());
        let c = pow2(width);
        let l = digits.last() as nat;
        assert(l < c) by {
            assert(digits[digits.len() - 1] == digits.last());
        }
        lemma_pow2_adds(width * prefix.len(), width);
        assert(width * prefix.len() + width == width * digits.len()) by (nonlinear_arith)
            requires
                digits.len() == prefix.len() + 1,
        ;
        assert(a * c + l < b * c) by (nonlinear_arith)
            requires
                a < b,
                l < c,
        ;
    }
}

/// `be_digits` yields `count` digits, each below `2^width`.
pub proof fn lemma_be_digits_shape(x: nat, count: nat, width: nat)
    requires
        valid_width(width),
    ensures
        be_digits(x, count, width).len() == count,
        digits_below(be_digits(x, count, width), width),
    decreases count,
{
    lemma_width_facts(width);
    if count > 0 {
        lemma_be_digits_shape(x / pow2(width), (count - 1) as nat, width);
        let prefix = be_digits(x / pow2(width), (count - 1) as nat, width);
        let d = be_digits(x, count, width);
        lemma_mod_pos_bound(x as int, pow2(width) as int);
        assert forall|i: int| 0 <= i < d.len() implies (#[trigger] d[i] as nat) < pow2(width) by {
            if i < d.len() - 1 {
                assert(d[i] == prefix[i]);
            }
        }
    }
}

/// Reading back the `count` lowest digits of `x` gives `x` modulo `2^(width * count)`.
pub proof fn lemma_be_value_of_digits(x: nat, count: nat, width: nat)
    requires
        valid_width(width),
    ensures
        be_value(be_digits(x, count, width), width) == x % pow2(width * count),
    decreases count,
{
    lemma_width_facts(width);
    let b = pow2(width);
    if count == 0 {
        assert(width * count == 0);
    } else {
        let q = x / b;
        lemma_be_value_of_digits(q, (count - 1) as nat, width);
        let d = be_digits(x, count, width);
        assert(d.drop_last() =~= be_digits(q, (count - 1) as nat, width));
        lemma_mod_pos_bound(x as int, b as int);
        let m = pow2(width * (count - 1) as nat);
        lemma_pow2_pos(width * (count - 1) as nat);
        lemma_pow2_adds(width, width * (count - 1) as nat);
        assert(width + width * (count - 1) as nat == width * count) by (nonlinear_arith)
            requires
                count > 0,
        ;
        lemma_mod_breakdown(x as int, b as int, m as int);
        assert(be_value(d, width) == (q % m) * b + x % b);
        assert((q % m) * b == b * (q % m)) by (nonlinear_arith);
    }
}

/// Digits below `2^width` are recovered from the number they denote.
pub proof fn lemma_digits_of_be_value(digits: Seq<u8>, width: nat)
    requires
        valid_width(width),
        digits_below(digits, width),
    ensures
        be_digits(be_value(digits, width), digits.len(), width) == digits,
    decreases digits.len(),
{
    lemma_width_facts(width);
    if digits.len() > 0 {
        let prefix = digits.drop_last();
        assert(digits_below(prefix, width)) by {
            assert forall|i: int| 0 <= i < prefix.len() implies (#[trigger] prefix[i] as nat)
                < pow2(width) by {
                assert(prefix[i] == digits[i]);
            }
        }
        lemma_digits_of_be_value(prefix, width);
        let v = be_value(digits, width);
        let l = digits.last() as nat;
        assert(l < pow2(width)) by {
            assert(digits[digits.len() - 1] == digits.last());
        }
        lemma_fundamental_div_mod_converse(
            v as int,
            pow2(width) as int,
            be_value(prefix, width) as int,
            l as int,
        );
        assert(be_digits(v, digits.len(), width) =~= digits);
    }
}

/// The number denoted by a concatenation.
pub proof fn lemma_be_value_append(a: Seq<u8>, b: Seq<u8>, width: nat)
    ensures
        be_value(a + b, width) == be_value(a, width) * pow2(width * b.len()) + be_value(b, width),
    decreases b.len(),
{
    lemma2_to64();
    if b.len() == 0 {
        assert(a + b =~= a);
        assert(width * b.len() == 0);
    } else {
        let b1 = b.drop_last();
        assert((a + b).drop_last() =~= a + b1);
        assert((a + b).last() == b.last());
        lemma_be_value_append(a, b1, width);
        let va = be_value(a, width);
        let vb1 = be_value(b1, width);
        let p = pow2(width * b1.len());
        let c = pow2(width);
        lemma_pow2_adds(width * b1.len(), width);
        assert(width * b1.len() + width == width * b.len()) by (nonlinear_arith)
            requires
                b.len() == b1.len() + 1,
        ;
        assert((va * p + vb1) * c == va * (p * c) + vb1 * c) by (nonlinear_arith);
    }
}

/// Splitting the digits of `x` into a high and a low group.
pub proof fn lemma_be_digits_split(x: nat, high: nat, low: nat, width: nat)
    requires
        valid_width(width),
    ensures
        be_digits(x, high + low, width) == be_digits(x / pow2(width * low), high, width)
            + be_digits(x, low, width),
    decreases low,
{
    lemma_width_facts(width);
    if low == 0 {
        assert(width * low == 0);
        assert(be_digits(x, high + low, width) =~= be_digits(x / pow2(width * low), high, width)
            + be_digits(x, low, width));
    } else {
        let b = pow2(width);
        let q = x / b;
        lemma_be_digits_split(q, high, (low - 1) as nat, width);
        let m = pow2(width * (low - 1) as nat);
        lemma_pow2_pos(width * (low - 1) as nat);
        lemma_div_denominator(x as int, b as int, m as int);
        lemma_pow2_adds(width, width * (low - 1) as nat);
        assert(width + width * (low - 1) as nat == width * low) by (nonlinear_arith)
            requires
                low > 0,
        ;
        assert((high + low - 1) as nat == high + (low - 1) as nat);
        assert(be_digits(x, high + low, width) =~= be_digits(x / pow2(width * low), high, width)
            + be_digits(x, low, width));
    }
}

/// Lower digits vanish under division: the value of a prefix.
pub proof fn lemma_be_value_prefix(digits: Seq<u8>, k: nat, width: nat)
    requires
        valid_width(width),
        digits_below(digits, width),
        k <= digits.len(),
    ensures
        be_value(digits.take(k as int), width) == be_value(digits, width) / pow2(
            width * (digits.len() - k) as nat,
        ),
        be_value(digits.skip(k as int), width) == be_value(digits, width) % pow2(
            width * (digits.len() - k) as nat,
        ),
{
    let hi = digits.take(k as int);
    let lo = digits.skip(k as int);
    assert(hi + lo =~= digits);
    lemma_be_value_append(hi, lo, width);
    lemma_digits_below_prefix(digits, width, k as int);
    lemma_be_value_bound(lo, width);
    lemma_pow2_pos(width * lo.len());
    lemma_fundamental_div_mod_converse(
        be_value(digits, width) as int,
        pow2(width * lo.len()) as int,
        be_value(hi, width) as int,
        be_value(lo, width) as int,
    );
}

/// Replacing one digit changes the number by the difference of the digits
/// at that digit's place value.
pub proof fn lemma_be_value_update(digits: Seq<u8>, i: int, d: u8, width: nat)
    requires
        0 <= i < digits.len(),
    ensures
        be_value(digits.update(i, d), width) + digits[i] * pow2(
            width * (digits.len() - 1 - i) as nat,
        ) == be_value(digits, width) + d * pow2(width * (digits.len() - 1 - i) as nat),
{
    let head = digits.take(i);
    let tail = digits.skip(i + 1);
    let place = pow2(width * tail.len());
    assert(digits =~= head.push(digits[i]) + tail);
    assert(digits.update(i, d) =~= head.push(d) + tail);
    lemma_be_value_append(head.push(digits[i]), tail, width);
    lemma_be_value_append(head.push(d), tail, width);
    assert(head.push(digits[i]).drop_last() =~= head);
    assert(head.push(d).drop_last() =~= head);
    let h = be_value(head, width) * pow2(width);
    assert((h + digits[i]) * place + d * place == (h + d) * place + digits[i] * place)
        by (nonlinear_arith);
}

} // verus!
