//! Properties of the library as a whole, stated over the model that the
//! functions' contracts use and proved from it.

use crate::alphabet::{
    INVALID, check_symbol_value, is_symbol, lemma_alphabet, lemma_check_alphabet, symbol_value,
    ALPHABET, CHECK_ALPHABET, HYPHEN,
};
use crate::check::{check_position, check_value, checked_decoding, is_skip_byte};
use crate::decoder::{first_rejected, is_rejected, last_symbol, strict_decoding, DecodeError};
use crate::model::{
    byte_count, decoded_values, decoding, fit, encoded_values, encoding, flushed_decoding,
    is_canonical, lemma_canonical_value, lemma_decode_encoded, lemma_encode_decoded,
    lemma_regroup_prefix, leftover_bits,
    lemma_regroup_shape, lemma_symbol_values_append, lemma_symbol_values_shape, spell,
    symbol_count, symbol_values,
};
use crate::radix::{be_value, digits_below};
use vstd::arithmetic::power2::{lemma2_to64, pow2};
use vstd::prelude::*;

verus! {

/// The canonical spelling of `input`: hyphens and other non-symbols
/// dropped, every symbol folded to its uppercase alphabet form.
pub open spec fn normalized(input: Seq<u8>) -> Seq<u8> {
    spell(symbol_values(input))
}

/// Spelled values are symbols that read back as those values.
pub proof fn lemma_symbol_values_of_spelling(values: Seq<u8>)
    requires
        digits_below(values, 5),
    ensures
        symbol_values(spell(values)) == values,
        first_rejected(spell(values)) is None,
        values.len() > 0 ==> last_symbol(spell(values)) == Some(values.len() - 1),
        forall|i: int| 0 <= i < spell(values).len() ==> !is_skip_byte(#[trigger] spell(values)[i]),
    decreases values.len(),
{
    lemma_alphabet();
    lemma2_to64();
    let s = spell(values);
    if values.len() > 0 {
        let prefix = values.drop_last();
        crate::radix::lemma_digits_below_prefix(values, 5, values.len() - 1);
        assert(values.take(values.len() - 1) =~= prefix);
        lemma_symbol_values_of_spelling(prefix);
        assert(s.drop_last() =~= spell(prefix));
        assert(values.last() < 32);
        assert(s.last() == ALPHABET@[values.last() as int]);
        assert(symbol_values(s) =~= values);
    }
    assert forall|i: int| 0 <= i < s.len() implies !is_skip_byte(#[trigger] s[i]) by {
        assert(values[i] < 32);
    }
}

/// Spelling is one-to-one on 5-bit values.
pub proof fn lemma_spell_injective(a: Seq<u8>, b: Seq<u8>)
    requires
        digits_below(a, 5),
        digits_below(b, 5),
        spell(a) == spell(b),
    ensures
        a == b,
{
    lemma_symbol_values_of_spelling(a);
    lemma_symbol_values_of_spelling(b);
}

/// Every encoding consists of alphabet symbols, as many as
/// `encoded_len` of the payload length.
pub proof fn law_encoding_shape(payload: Seq<u8>)
    ensures
        encoding(payload).len() == symbol_count(payload.len()),
        forall|i: int|
            0 <= i < encoding(payload).len() ==> exists|v: int|
                0 <= v < 32 && #[trigger] encoding(payload)[i] == ALPHABET@[v],
{
    lemma_decode_encoded(payload);
    let v = encoded_values(payload);
    assert forall|i: int| 0 <= i < encoding(payload).len() implies exists|x: int|
        0 <= x < 32 && #[trigger] encoding(payload)[i] == ALPHABET@[x] by {
        lemma2_to64();
        assert(v[i] < 32);
        assert(encoding(payload)[i] == ALPHABET@[v[i] as int]);
    }
}

/// Round trip: decoding the encoding of any payload, leniently or
/// strictly, gives the payload back.
pub proof fn law_round_trip(payload: Seq<u8>)
    ensures
        decoding(encoding(payload)) == payload,
        strict_decoding(encoding(payload)) == Ok::<Seq<u8>, DecodeError>(payload),
        normalized(encoding(payload)) == encoding(payload),
{
    lemma_decode_encoded(payload);
    lemma_symbol_values_of_spelling(encoded_values(payload));
}

/// Decoding a number of symbols gives `decoded_len` of that number of
/// bytes; in particular `decoded_len(encoded_len(n)) == n`.
pub proof fn law_length_helpers(n: nat, input: Seq<u8>)
    ensures
        byte_count(symbol_count(n)) == n,
        decoding(input).len() == byte_count(symbol_values(input).len()),
        decoding(input).len() <= byte_count(input.len()),
{
    let c = symbol_count(n);
    vstd::arithmetic::div_mod::lemma_fundamental_div_mod((8 * n + 4) as int, 5);
    vstd::arithmetic::div_mod::lemma_fundamental_div_mod_converse(
        (5 * c) as int,
        8,
        n as int,
        (5 * c - 8 * n) as int,
    );
    lemma_symbol_values_shape(input);
    let all = symbol_values(input);
    crate::radix::lemma_be_digits_shape(
        be_value(all, 5) / pow2(crate::model::leftover_bits(all.len())),
        byte_count(all.len()),
        8,
    );
}

/// Strict decoding accepts exactly the canonical encodings: what it
/// accepts is, up to hyphens, case and aliases, the encoding of the bytes
/// it returns, and those bytes are what lenient decoding returns too.
pub proof fn law_strict_accepts_only_canonical(input: Seq<u8>)
    ensures
        strict_decoding(input) is Ok ==> {
            &&& first_rejected(input) is None
            &&& strict_decoding(input) == Ok::<Seq<u8>, DecodeError>(decoding(input))
            &&& encoding(decoding(input)) == normalized(input)
        },
{
    if strict_decoding(input) is Ok {
        lemma_symbol_values_shape(input);
        lemma_encode_decoded(symbol_values(input));
    }
}

/// Each byte spelled as the alphabet symbol of its value, hyphens dropped.
pub open spec fn hyphen_free_spelling(input: Seq<u8>) -> Seq<u8> {
    input.filter(|b: u8| b != HYPHEN).map_values(|b: u8| ALPHABET@[symbol_value(b) as int])
}

/// With no rejected byte, the normalized spelling drops the hyphens and
/// spells every other byte by its value.
proof fn lemma_normalized_spelling(input: Seq<u8>)
    requires
        forall|i: int| 0 <= i < input.len() ==> !is_rejected(#[trigger] input[i]),
    ensures
        normalized(input) == hyphen_free_spelling(input),
    decreases input.len(),
{
    reveal(Seq::filter);
    if input.len() > 0 {
        let prefix = input.drop_last();
        assert forall|i: int| 0 <= i < prefix.len() implies !is_rejected(#[trigger] prefix[i]) by {
            assert(prefix[i] == input[i]);
        }
        lemma_normalized_spelling(prefix);
        let last = input.last();
        assert(last == input[input.len() - 1]);
        crate::alphabet::lemma_symbol_value_range(HYPHEN);
        assert(is_symbol(last) <==> last != HYPHEN);
        let pred = |b: u8| b != HYPHEN;
        let sp = |b: u8| ALPHABET@[symbol_value(b) as int];
        if last != HYPHEN {
            assert(input.filter(pred) == prefix.filter(pred).push(last));
            assert(symbol_values(input) == symbol_values(prefix).push(symbol_value(last)));
            assert(prefix.filter(pred).push(last).map_values(sp) =~= prefix.filter(pred).map_values(
                sp,
            ).push(sp(last)));
            assert(spell(symbol_values(prefix).push(symbol_value(last))) =~= spell(
                symbol_values(prefix),
            ).push(ALPHABET@[symbol_value(last) as int]));
        } else {
            assert(input.filter(pred) == prefix.filter(pred));
            assert(symbol_values(input) == symbol_values(prefix));
        }
        assert(normalized(input) =~= hyphen_free_spelling(input));
    }
}

/// What strict decoding accepts re-encodes to its own hyphen-free
/// spelling, uppercased and with aliases resolved: no re-encoding is needed
/// to tell whether an accepted input was already canonical up to those.
pub proof fn law_accepted_input_is_its_encoding(input: Seq<u8>)
    requires
        strict_decoding(input) is Ok,
    ensures
        encoding(decoding(input)) == hyphen_free_spelling(input),
{
    law_strict_accepts_only_canonical(input);
    lemma_first_rejected_facts(input);
    lemma_normalized_spelling(input);
}

/// Strict decoding accepts every spelling of a canonical encoding: an
/// input with no rejected byte whose normalization is the encoding of
/// `payload` decodes strictly to `payload`.
pub proof fn law_strict_accepts_every_canonical(input: Seq<u8>, payload: Seq<u8>)
    requires
        first_rejected(input) is None,
        normalized(input) == encoding(payload),
    ensures
        strict_decoding(input) == Ok::<Seq<u8>, DecodeError>(payload),
{
    lemma_symbol_values_shape(input);
    lemma_decode_encoded(payload);
    lemma_spell_injective(symbol_values(input), encoded_values(payload));
}

/// A strict rejection names the first rejected byte, or the final symbol
/// of an input that is not the canonical encoding of what it decodes to.
pub proof fn law_strict_rejections(input: Seq<u8>)
    requires
        input.len() <= usize::MAX,
    ensures
        strict_decoding(input) matches Err(DecodeError::InvalidByte { position, byte }) ==> {
            &&& position < input.len()
            &&& input[position as int] == byte
            &&& is_rejected(byte)
            &&& forall|i: int| 0 <= i < position ==> !is_rejected(#[trigger] input[i])
        },
        strict_decoding(input) matches Err(DecodeError::NonZeroPadding { position, byte }) ==> {
            &&& first_rejected(input) is None
            &&& last_symbol(input) == Some(position as int)
            &&& input[position as int] == byte
            &&& normalized(input) != encoding(decoding(input))
        },
        strict_decoding(input) matches Err(DecodeError::ExcessSymbol { position, byte }) ==> {
            &&& first_rejected(input) is None
            &&& last_symbol(input) == Some(position as int)
            &&& input[position as int] == byte
            &&& normalized(input) != encoding(decoding(input))
        },
        !(strict_decoding(input) matches Err(DecodeError::Capacity(_))),
{
    lemma_first_rejected_facts(input);
    if first_rejected(input) is None {
        lemma_symbol_values_shape(input);
        lemma_last_symbol_facts(input);
        lemma2_to64();
        if symbol_values(input).len() == 0 {
            assert(crate::model::leftover_bits(0) == 0);
            assert(be_value(symbol_values(input), 5) % pow2(0) == 0);
        }
        if normalized(input) == encoding(decoding(input)) {
            law_strict_accepts_every_canonical(input, decoding(input));
        }
    }
}

/// The first rejected byte is rejected, and no byte before it is.
pub proof fn lemma_first_rejected_facts(input: Seq<u8>)
    ensures
        first_rejected(input) matches Some(p) ==> {
            &&& 0 <= p < input.len()
            &&& is_rejected(input[p])
            &&& forall|i: int| 0 <= i < p ==> !is_rejected(#[trigger] input[i])
        },
        first_rejected(input) is None ==> forall|i: int|
            0 <= i < input.len() ==> !is_rejected(#[trigger] input[i]),
    decreases input.len(),
{
    if input.len() > 0 {
        let prefix = input.drop_last();
        lemma_first_rejected_facts(prefix);
        assert forall|i: int| 0 <= i < prefix.len() implies prefix[i] == input[i] by {}
    }
}

/// The last symbol is a symbol, exists exactly when some symbol does, and
/// has no symbol after it.
pub proof fn lemma_last_symbol_facts(input: Seq<u8>)
    ensures
        last_symbol(input) matches Some(p) ==> 0 <= p < input.len() && is_symbol(input[p]),
        last_symbol(input) is None <==> symbol_values(input).len() == 0,
    decreases input.len(),
{
    if input.len() > 0 {
        lemma_last_symbol_facts(input.drop_last());
    }
}

/// Hyphens are insignificant: inserting one anywhere changes neither what
/// lenient decoding returns nor what strict decoding accepts.
pub proof fn law_hyphens_are_insignificant(before: Seq<u8>, after: Seq<u8>)
    ensures
        decoding(before + seq![HYPHEN] + after) == decoding(before + after),
        strict_decoding(before + after) is Ok ==> strict_decoding(before + seq![HYPHEN] + after)
            == strict_decoding(before + after),
{
    let hyphen: Seq<u8> = seq![HYPHEN];
    crate::alphabet::lemma_symbol_value_range(HYPHEN);
    lemma_symbol_values_append(before, hyphen);
    lemma_symbol_values_append(before + hyphen, after);
    lemma_symbol_values_append(before, after);
    assert(symbol_values(hyphen) =~= Seq::<u8>::empty()) by {
        assert(hyphen.drop_last() =~= Seq::<u8>::empty());
        assert(symbol_values(Seq::<u8>::empty()) =~= Seq::<u8>::empty());
        assert(hyphen.last() == HYPHEN);
        assert(!is_symbol(hyphen.last()));
    }
    assert(symbol_values(before + hyphen) =~= symbol_values(before));
    let joined = before + after;
    let spaced = before + hyphen + after;
    assert(symbol_values(spaced) =~= symbol_values(joined));
    if strict_decoding(joined) is Ok {
        lemma_first_rejected_facts(joined);
        assert forall|i: int| 0 <= i < spaced.len() implies !is_rejected(#[trigger] spaced[i]) by {
            if i < before.len() {
                assert(spaced[i] == joined[i]);
            } else if i > before.len() {
                assert(spaced[i] == joined[i - 1]);
            }
        }
        lemma_no_rejected(spaced);
        law_strict_accepts_only_canonical(joined);
        law_strict_accepts_every_canonical(spaced, decoding(joined));
    }
}

/// The ASCII uppercase form of a byte; every other byte is itself.
pub open spec fn ascii_uppercase(b: u8) -> u8 {
    if 97 <= b <= 122 {
        (b - 32) as u8
    } else {
        b
    }
}

/// Lenient decoding reads nothing of a byte but its value: two inputs whose
/// bytes have the same values, position by position, decode alike.
pub proof fn law_decoding_reads_only_values(input: Seq<u8>, other: Seq<u8>)
    requires
        input.len() == other.len(),
        forall|i: int|
            0 <= i < input.len() ==> symbol_value(#[trigger] input[i]) == symbol_value(other[i]),
    ensures
        symbol_values(input) == symbol_values(other),
        decoding(input) == decoding(other),
    decreases input.len(),
{
    if input.len() > 0 {
        let a = input.drop_last();
        let b = other.drop_last();
        assert forall|i: int| 0 <= i < a.len() implies symbol_value(#[trigger] a[i])
            == symbol_value(b[i]) by {
            assert(a[i] == input[i]);
            assert(b[i] == other[i]);
        }
        law_decoding_reads_only_values(a, b);
        assert(symbol_value(input.last()) == symbol_value(other.last())) by {
            assert(input.last() == input[input.len() - 1]);
            assert(other.last() == other[other.len() - 1]);
        }
    }
}

/// Lenient decoding ignores letter case: uppercasing every byte of the
/// input leaves what it decodes to unchanged.
pub proof fn law_decoding_ignores_case(input: Seq<u8>)
    ensures
        decoding(input.map_values(|b: u8| ascii_uppercase(b))) == decoding(input),
{
    let upper = input.map_values(|b: u8| ascii_uppercase(b));
    assert forall|i: int| 0 <= i < upper.len() implies symbol_value(#[trigger] upper[i])
        == symbol_value(input[i]) by {
        assert(upper[i] == ascii_uppercase(input[i]));
    }
    law_decoding_reads_only_values(upper, input);
}

/// Lenient decoding skips every byte outside the alphabet: inserting one
/// anywhere leaves what the input decodes to unchanged.
pub proof fn law_decoding_skips_non_symbols(before: Seq<u8>, x: u8, after: Seq<u8>)
    requires
        !is_symbol(x),
    ensures
        decoding(before + seq![x] + after) == decoding(before + after),
{
    let single: Seq<u8> = seq![x];
    lemma_symbol_values_append(before, single);
    lemma_symbol_values_append(before + single, after);
    lemma_symbol_values_append(before, after);
    assert(symbol_values(single) =~= Seq::<u8>::empty()) by {
        assert(single.drop_last() =~= Seq::<u8>::empty());
        assert(symbol_values(Seq::<u8>::empty()) =~= Seq::<u8>::empty());
        assert(single.last() == x);
    }
    assert(symbol_values(before + single + after) =~= symbol_values(before + after));
}

/// An input none of whose bytes is rejected has no first rejected byte.
pub proof fn lemma_no_rejected(input: Seq<u8>)
    requires
        forall|i: int| 0 <= i < input.len() ==> !is_rejected(#[trigger] input[i]),
    ensures
        first_rejected(input) is None,
    decreases input.len(),
{
    if input.len() > 0 {
        let prefix = input.drop_last();
        assert forall|i: int| 0 <= i < prefix.len() implies !is_rejected(#[trigger] prefix[i]) by {
            assert(prefix[i] == input[i]);
        }
        lemma_no_rejected(prefix);
    }
}

/// A prefix of an encoding decodes to a prefix of the payload: the first
/// `k` symbols carry the first `decoded_len(k)` bytes.
pub proof fn law_prefix_of_encoding(payload: Seq<u8>, k: nat)
    requires
        k <= symbol_count(payload.len()),
    ensures
        decoded_values(encoded_values(payload).take(k as int)) == payload.take(
            byte_count(k) as int,
        ),
{
    let v = encoded_values(payload);
    lemma_decode_encoded(payload);
    let m = byte_count(k);
    let r = crate::model::leftover_bits(k);
    vstd::arithmetic::div_mod::lemma_fundamental_div_mod((5 * k) as int, 8);
    assert(8 * m <= 8 * payload.len()) by {
        vstd::arithmetic::div_mod::lemma_fundamental_div_mod(
            (8 * payload.len() + 4) as int,
            5,
        );
    }
    // Stream the payload's first `m` bytes into the first `k` symbols.
    let head = v.take(k as int);
    crate::radix::lemma_digits_below_prefix(v, 5, k as int);
    crate::model::lemma_bytes_below(payload);
    lemma_regroup_shape(payload, 8, 5);
    crate::radix::lemma_be_value_prefix(v, k, 5);
    let rest_bits = (5 * (v.len() - k)) as nat;
    let hv = be_value(head, 5);
    let d = be_value(v, 5);
    let total = be_value(payload, 8);
    let pad = (5 * v.len() - 8 * payload.len()) as nat;
    assert(d == total * pow2(pad));
    // The value of the head, shifted right by its leftover bits, is the
    // value of the payload's first `m` bytes.
    let pm = payload.take(m as int);
    crate::radix::lemma_be_value_prefix(payload, m, 8);
    let low = (8 * (payload.len() - m)) as nat;
    assert(rest_bits + r == low + pad) by {
        assert(5 * k == 8 * m + r);
        assert(5 * v.len() == 8 * payload.len() + pad);
    }
    vstd::arithmetic::power2::lemma_pow2_pos(rest_bits);
    vstd::arithmetic::power2::lemma_pow2_pos(r);
    vstd::arithmetic::power2::lemma_pow2_pos(low);
    vstd::arithmetic::power2::lemma_pow2_pos(pad);
    vstd::arithmetic::div_mod::lemma_div_denominator(d as int, pow2(rest_bits) as int, pow2(r) as int);
    vstd::arithmetic::power2::lemma_pow2_adds(rest_bits, r);
    vstd::arithmetic::power2::lemma_pow2_adds(low, pad);
    assert(hv / pow2(r) == d / pow2(low + pad));
    vstd::arithmetic::div_mod::lemma_div_denominator(d as int, pow2(pad) as int, pow2(low) as int);
    assert(d / pow2(pad) == total) by {
        vstd::arithmetic::div_mod::lemma_div_multiples_vanish(total as int, pow2(pad) as int);
        assert(total * pow2(pad) == pow2(pad) * total) by (nonlinear_arith);
    }
    assert(pow2(low + pad) == pow2(pad) * pow2(low)) by (nonlinear_arith)
        requires
            pow2(low + pad) == pow2(low) * pow2(pad),
    ;
    assert(hv / pow2(r) == be_value(pm, 8));
    crate::radix::lemma_digits_of_be_value(pm, 8);
    assert(head.len() == k);
    assert(m <= payload.len());
    assert(pm.len() == m);
    assert(decoded_values(head) == crate::radix::be_digits(hv / pow2(r), m, 8));
}

/// Leading zero bytes do not change the check value.
pub proof fn law_check_value_ignores_leading_zeros(zeros: Seq<u8>, payload: Seq<u8>)
    requires
        forall|i: int| 0 <= i < zeros.len() ==> #[trigger] zeros[i] == 0,
    ensures
        check_value(zeros + payload) == check_value(payload),
{
    lemma_zeros_value(zeros);
    crate::radix::lemma_be_value_append(zeros, payload, 8);
}

/// A run of zero bytes denotes zero.
proof fn lemma_zeros_value(zeros: Seq<u8>)
    requires
        forall|i: int| 0 <= i < zeros.len() ==> #[trigger] zeros[i] == 0,
    ensures
        be_value(zeros, 8) == 0,
    decreases zeros.len(),
{
    if zeros.len() > 0 {
        let prefix = zeros.drop_last();
        assert forall|i: int| 0 <= i < prefix.len() implies #[trigger] prefix[i] == 0 by {
            assert(prefix[i] == zeros[i]);
        }
        lemma_zeros_value(prefix);
        assert(zeros.last() == zeros[zeros.len() - 1]);
        assert(zeros.last() == 0);
        assert(be_value(prefix, 8) * pow2(8) == 0);
    }
}

/// The check symbol of a payload is an ASCII symbol that reads back as
/// its check value, which is below 37.
pub proof fn law_check_symbol_reads_back(payload: Seq<u8>)
    ensures
        check_value(payload) < 37,
        check_symbol_value(CHECK_ALPHABET@[check_value(payload) as int]) == check_value(payload),
        CHECK_ALPHABET@[check_value(payload) as int] < 128,
{
    lemma_check_alphabet();
}

/// Round trip with a check symbol: decoding the encoding of a payload with
/// its check symbol appended, followed by any run of whitespace and
/// hyphens, gives the payload back.
pub proof fn law_check_round_trip(payload: Seq<u8>, trailing: Seq<u8>)
    requires
        forall|i: int| 0 <= i < trailing.len() ==> is_skip_byte(#[trigger] trailing[i]),
    ensures
        checked_decoding(
            encoding(payload).push(CHECK_ALPHABET@[check_value(payload) as int]) + trailing,
        ) == Ok::<Seq<u8>, crate::check::CheckError>(payload),
{
    let body = encoding(payload);
    let symbol = CHECK_ALPHABET@[check_value(payload) as int];
    let checked = body.push(symbol);
    let input = checked + trailing;
    lemma_check_alphabet();
    lemma_check_position_skips(checked, trailing);
    assert(!is_skip_byte(symbol)) by {
        let v = check_value(payload) as int;
        assert(CHECK_ALPHABET@[v] == symbol);
    }
    assert(check_position(checked) == Some(body.len() as int)) by {
        assert(checked.last() == symbol);
    }
    assert(input[body.len() as int] == symbol);
    assert(input.take(body.len() as int) =~= body);
    law_round_trip(payload);
}

/// Uppercasing a byte keeps everything that decoding reads of it: its
/// value as a symbol and as a check symbol, and whether it is skipped or
/// rejected.
proof fn lemma_uppercase_byte(b: u8)
    ensures
        symbol_value(ascii_uppercase(b)) == symbol_value(b),
        check_symbol_value(ascii_uppercase(b)) == check_symbol_value(b),
        is_skip_byte(ascii_uppercase(b)) == is_skip_byte(b),
        is_rejected(ascii_uppercase(b)) == is_rejected(b),
{
}

/// Strict decoding ignores letter case: an input and its uppercase form are
/// accepted or rejected together, and when accepted give the same bytes.
pub proof fn law_strict_decoding_ignores_case(input: Seq<u8>)
    ensures
        strict_decoding(input.map_values(|b: u8| ascii_uppercase(b))) is Ok <==> strict_decoding(
            input,
        ) is Ok,
        strict_decoding(input) is Ok ==> strict_decoding(
            input.map_values(|b: u8| ascii_uppercase(b)),
        ) == strict_decoding(input),
{
    let upper = input.map_values(|b: u8| ascii_uppercase(b));
    assert forall|i: int| 0 <= i < input.len() implies symbol_value(#[trigger] upper[i])
        == symbol_value(input[i]) && is_rejected(upper[i]) == is_rejected(input[i]) by {
        lemma_uppercase_byte(input[i]);
    }
    law_decoding_reads_only_values(upper, input);
    law_strict_accepts_only_canonical(input);
    law_strict_accepts_only_canonical(upper);
    lemma_first_rejected_facts(input);
    lemma_first_rejected_facts(upper);
    if strict_decoding(input) is Ok {
        assert forall|i: int| 0 <= i < upper.len() implies !is_rejected(#[trigger] upper[i]) by {
            assert(!is_rejected(input[i]));
        }
        lemma_no_rejected(upper);
        law_strict_accepts_every_canonical(upper, decoding(input));
    }
    if strict_decoding(upper) is Ok {
        assert forall|i: int| 0 <= i < input.len() implies !is_rejected(#[trigger] input[i]) by {
            assert(!is_rejected(upper[i]));
        }
        lemma_no_rejected(input);
        law_strict_accepts_every_canonical(input, decoding(upper));
    }
}

/// Checked decoding ignores letter case, of the body and of the check
/// symbol alike: an input and its uppercase form are accepted or rejected
/// together, and when accepted give the same payload.
pub proof fn law_checked_decoding_ignores_case(input: Seq<u8>)
    ensures
        checked_decoding(input.map_values(|b: u8| ascii_uppercase(b))) is Ok <==> checked_decoding(
            input,
        ) is Ok,
        checked_decoding(input) is Ok ==> checked_decoding(
            input.map_values(|b: u8| ascii_uppercase(b)),
        ) == checked_decoding(input),
{
    let upper = input.map_values(|b: u8| ascii_uppercase(b));
    assert forall|i: int| 0 <= i < input.len() implies #[trigger] upper[i] == ascii_uppercase(
        input[i],
    ) && is_skip_byte(upper[i]) == is_skip_byte(input[i]) && check_symbol_value(upper[i])
        == check_symbol_value(input[i]) by {
        lemma_uppercase_byte(input[i]);
    }
    if check_position(input) is Some {
        let c = check_position(input)->Some_0;
        lemma_check_position_at(input, c);
        assert forall|j: int| c < j < upper.len() implies is_skip_byte(#[trigger] upper[j]) by {
            assert(is_skip_byte(input[j]));
        }
        lemma_check_position_at(upper, c);
    } else if check_position(upper) is Some {
        let c = check_position(upper)->Some_0;
        lemma_check_position_at(upper, c);
        assert forall|j: int| c < j < input.len() implies is_skip_byte(#[trigger] input[j]) by {
            assert(is_skip_byte(upper[j]));
        }
        lemma_check_position_at(input, c);
    }
    assert(check_position(upper) == check_position(input));
    if check_position(input) is Some {
        let c = check_position(input)->Some_0;
        let body = input.take(c);
        assert(upper.take(c) =~= body.map_values(|b: u8| ascii_uppercase(b)));
        law_strict_decoding_ignores_case(body);
        assert(check_symbol_value(upper[c]) == check_symbol_value(input[c]));
    }
}

/// The ASCII lowercase form of a byte; every other byte is itself.
pub open spec fn ascii_lowercase(b: u8) -> u8 {
    if 65 <= b <= 90 {
        (b + 32) as u8
    } else {
        b
    }
}

/// Round trip with a check symbol in any letter case: every input whose
/// uppercase form is a payload's checked encoding, such as that encoding
/// in lowercase or with the check symbol alone in lowercase, decodes to
/// the payload.
pub proof fn law_check_round_trip_any_case(payload: Seq<u8>, input: Seq<u8>)
    requires
        input.map_values(|b: u8| ascii_uppercase(b)) == checked_encoding(payload),
    ensures
        checked_decoding(input) == Ok::<Seq<u8>, crate::check::CheckError>(payload),
{
    law_check_round_trip(payload, Seq::empty());
    assert(checked_encoding(payload) + Seq::<u8>::empty() =~= checked_encoding(payload));
    law_checked_decoding_ignores_case(input);
}

/// The lowercase form of a payload's checked encoding decodes to the
/// payload.
pub proof fn law_lowercase_check_round_trip(payload: Seq<u8>)
    ensures
        checked_decoding(checked_encoding(payload).map_values(|b: u8| ascii_lowercase(b)))
            == Ok::<Seq<u8>, crate::check::CheckError>(payload),
{
    let s = checked_encoding(payload);
    let lower = s.map_values(|b: u8| ascii_lowercase(b));
    lemma_checked_encoding(payload);
    lemma_alphabet();
    lemma_check_alphabet();
    lemma2_to64();
    let v = encoded_values(payload);
    assert forall|i: int| 0 <= i < s.len() implies !(97 <= #[trigger] s[i] <= 122) by {
        if i < v.len() {
            assert(v[i] < 32);
            assert(s[i] == ALPHABET@[v[i] as int]);
        } else {
            let w = check_value(payload) as int;
            assert(s[i] == CHECK_ALPHABET@[w]);
        }
    }
    assert(lower.map_values(|b: u8| ascii_uppercase(b)) =~= s) by {
        assert forall|i: int| 0 <= i < s.len() implies lower.map_values(
            |b: u8| ascii_uppercase(b),
        )[i] == s[i] by {
            assert(lower[i] == ascii_lowercase(s[i]));
        }
    }
    law_check_round_trip_any_case(payload, lower);
}

/// Skipped bytes after the check symbol do not move it.
proof fn lemma_check_position_skips(checked: Seq<u8>, trailing: Seq<u8>)
    requires
        forall|i: int| 0 <= i < trailing.len() ==> is_skip_byte(#[trigger] trailing[i]),
    ensures
        check_position(checked + trailing) == check_position(checked),
    decreases trailing.len(),
{
    if trailing.len() == 0 {
        assert(checked + trailing =~= checked);
    } else {
        let shorter = trailing.drop_last();
        assert((checked + trailing).drop_last() =~= checked + shorter);
        assert((checked + trailing).last() == trailing[trailing.len() - 1]);
        assert forall|i: int| 0 <= i < shorter.len() implies is_skip_byte(#[trigger] shorter[i]) by {
            assert(shorter[i] == trailing[i]);
        }
        lemma_check_position_skips(checked, shorter);
    }
}

/// The check symbol stands at `c` exactly when the byte there is not
/// skipped and every byte after it is.
proof fn lemma_check_position_at(input: Seq<u8>, c: int)
    ensures
        check_position(input) == Some(c) <==> (0 <= c < input.len() && !is_skip_byte(input[c])
            && forall|j: int| c < j < input.len() ==> is_skip_byte(#[trigger] input[j])),
    decreases input.len(),
{
    if input.len() > 0 {
        let shorter = input.drop_last();
        lemma_check_position_at(shorter, c);
        assert(input.last() == input[input.len() - 1]);
        assert forall|j: int| 0 <= j < shorter.len() implies shorter[j] == input[j] by {}
        if is_skip_byte(input.last()) && 0 <= c < shorter.len() && !is_skip_byte(input[c]) && (
        forall|j: int| c < j < shorter.len() ==> is_skip_byte(#[trigger] shorter[j])) {
            assert forall|j: int| c < j < input.len() implies is_skip_byte(#[trigger] input[j]) by {
                if j < shorter.len() {
                    assert(shorter[j] == input[j]);
                }
            }
        }
        if check_position(input) != Some(c) && 0 <= c < input.len() && !is_skip_byte(input[c])
            && (forall|j: int| c < j < input.len() ==> is_skip_byte(#[trigger] input[j])) {
            if c < input.len() - 1 {
                assert(is_skip_byte(input[input.len() - 1]));
                assert forall|j: int| c < j < shorter.len() implies is_skip_byte(
                    #[trigger] shorter[j],
                ) by {
                    assert(input[j] == shorter[j]);
                }
            }
        }
    }
}

/// Hyphens are insignificant to checked decoding too: inserting one
/// anywhere into an input that decodes with its check symbol gives the same
/// payload back.
pub proof fn law_checked_hyphens_are_insignificant(before: Seq<u8>, after: Seq<u8>)
    requires
        checked_decoding(before + after) is Ok,
    ensures
        checked_decoding(before + seq![HYPHEN] + after) == checked_decoding(before + after),
{
    let joined = before + after;
    let hyphen: Seq<u8> = seq![HYPHEN];
    let spaced = before + hyphen + after;
    let b = before.len() as int;
    let c = check_position(joined)->Some_0;
    lemma_check_position_at(joined, c);
    assert(is_skip_byte(HYPHEN));
    assert(spaced.len() == joined.len() + 1);
    assert forall|j: int| 0 <= j < b implies spaced[j] == joined[j] by {}
    assert forall|j: int| b < j < spaced.len() implies spaced[j] == joined[j - 1] by {}
    if c < b {
        // The hyphen follows the check symbol, among the skipped bytes.
        assert forall|j: int| c < j < spaced.len() implies is_skip_byte(#[trigger] spaced[j]) by {
            if j < b {
                assert(spaced[j] == joined[j]);
            } else if j > b {
                assert(spaced[j] == joined[j - 1]);
            }
        }
        lemma_check_position_at(spaced, c);
        assert(spaced.take(c) =~= joined.take(c));
    } else {
        // The hyphen falls in the body, before the check symbol.
        assert(spaced[c + 1] == joined[c]);
        assert forall|j: int| c + 1 < j < spaced.len() implies is_skip_byte(
            #[trigger] spaced[j],
        ) by {
            assert(spaced[j] == joined[j - 1]);
        }
        lemma_check_position_at(spaced, c + 1);
        let middle = joined.subrange(b, c);
        assert(joined.take(c) =~= before + middle);
        assert(spaced.take(c + 1) =~= before + hyphen + middle);
        law_hyphens_are_insignificant(before, middle);
    }
}

/// A payload's encoding followed by its check symbol.
pub open spec fn checked_encoding(payload: Seq<u8>) -> Seq<u8> {
    encoding(payload).push(CHECK_ALPHABET@[check_value(payload) as int])
}

/// No product of two nonzero residues modulo 37 is divisible by 37.
proof fn lemma_residues_37(x: u16, y: u16)
    by (bit_vector)
    requires
        1 <= x <= 36,
        1 <= y <= 36,
    ensures
        (x * y) % 37 != 0,
{
}

/// 37 is prime: it divides a product only if it divides a factor.
proof fn lemma_prime_37(x: int, y: int)
    requires
        x % 37 != 0,
        y % 37 != 0,
    ensures
        (x * y) % 37 != 0,
{
    vstd::arithmetic::div_mod::lemma_mul_mod_noop(x, y, 37);
    let a = x % 37;
    let b = y % 37;
    lemma_residues_37(a as u16, b as u16);
}

/// No power of two is divisible by 37.
proof fn lemma_pow2_not_37(t: nat)
    ensures
        pow2(t) % 37 != 0,
    decreases t,
{
    lemma2_to64();
    if t > 0 {
        lemma_pow2_not_37((t - 1) as nat);
        vstd::arithmetic::power2::lemma_pow2_unfold(t);
        lemma_prime_37(2, pow2((t - 1) as nat) as int);
    }
}

/// Two payloads whose check values agree and whose canonical encodings
/// have the same length differ, at the scale of their leftover bits, by a
/// multiple of 37.
proof fn lemma_same_check(
    values: Seq<u8>,
    other: Seq<u8>,
    delta: int,
)
    requires
        digits_below(values, 5),
        digits_below(other, 5),
        is_canonical(values),
        is_canonical(other),
        values.len() == other.len(),
        check_value(decoded_values(values)) == check_value(decoded_values(other)),
        be_value(other, 5) - be_value(values, 5) == delta,
    ensures
        delta % 37 == 0,
{
    lemma_canonical_value(values);
    lemma_canonical_value(other);
    let r = pow2(leftover_bits(values.len()));
    let n = be_value(decoded_values(values), 8) as int;
    let n2 = be_value(decoded_values(other), 8) as int;
    vstd::arithmetic::div_mod::lemma_sub_mod_noop(n2, n, 37);
    assert((n2 - n) * r == delta) by (nonlinear_arith)
        requires
            n2 * r - n * r == delta,
    ;
    vstd::arithmetic::div_mod::lemma_mul_mod_noop_left(n2 - n, r as int, 37);
    assert((n2 - n) % 37 == 0);
    assert(((n2 - n) % 37) * (r as int) == 0) by (nonlinear_arith)
        requires
            (n2 - n) % 37 == 0,
    ;
}

/// Trading the last body symbol `last` for the check symbol `check` cannot
/// keep a canonical body consistent with its check: the payload would have
/// to change by `check - last` in its low bits while its check value moved
/// from `check` to `last`.
proof fn lemma_swapped_check(values: Seq<u8>, other: Seq<u8>, check: int, last: int)
    requires
        digits_below(values, 5),
        digits_below(other, 5),
        is_canonical(values),
        is_canonical(other),
        values.len() == other.len(),
        0 <= check < 32,
        0 <= last < 32,
        check != last,
        check_value(decoded_values(values)) == check,
        be_value(other, 5) + last == be_value(values, 5) + check,
    ensures
        check_value(decoded_values(other)) != last,
{
    if check_value(decoded_values(other)) == last {
        lemma_canonical_value(values);
        lemma_canonical_value(other);
        let t = leftover_bits(values.len());
        let r = pow2(t) as int;
        lemma2_to64();
        assert(r == 1 || r == 2 || r == 4 || r == 8 || r == 16);
        let n = be_value(decoded_values(values), 8) as int;
        let n2 = be_value(decoded_values(other), 8) as int;
        let e = check - last;
        assert((n2 - n) * r == e) by (nonlinear_arith)
            requires
                n2 * r + last == n * r + check,
                e == check - last,
        ;
        vstd::arithmetic::div_mod::lemma_fundamental_div_mod(n, 37);
        vstd::arithmetic::div_mod::lemma_fundamental_div_mod(n2, 37);
        let j = n2 / 37 - n / 37;
        assert(n2 - n == 37 * j - e);
        assert(e * (r + 1) == 37 * (j * r)) by (nonlinear_arith)
            requires
                (n2 - n) * r == e,
                n2 - n == 37 * j - e,
        ;
        vstd::arithmetic::div_mod::lemma_mod_multiples_basic(j * r, 37);
        assert((37 * (j * r)) % 37 == 0) by (nonlinear_arith)
            requires
                ((j * r) * 37) % 37 == 0,
        ;
        lemma_prime_37(e, r + 1);
    }
}

/// Bytes that locate the check symbol are never check symbols.
proof fn lemma_skip_bytes_are_not_symbols(b: u8)
    ensures
        is_skip_byte(b) ==> check_symbol_value(b) == INVALID && symbol_value(b) == INVALID,
{
}

/// The values of a string of symbols are the values of its bytes.
proof fn lemma_values_of_symbols(text: Seq<u8>)
    requires
        forall|i: int| 0 <= i < text.len() ==> is_symbol(#[trigger] text[i]),
    ensures
        symbol_values(text) == text.map_values(|b: u8| symbol_value(b)),
        first_rejected(text) is None,
    decreases text.len(),
{
    if text.len() > 0 {
        let prefix = text.drop_last();
        assert forall|i: int| 0 <= i < prefix.len() implies is_symbol(#[trigger] prefix[i]) by {
            assert(prefix[i] == text[i]);
        }
        lemma_values_of_symbols(prefix);
        assert(text[text.len() - 1] == text.last());
        assert(symbol_values(text) =~= text.map_values(|b: u8| symbol_value(b)));
    }
}

/// The facts about a checked encoding that the detection laws share.
proof fn lemma_checked_encoding(payload: Seq<u8>)
    ensures
        ({
            let v = encoded_values(payload);
            let body = encoding(payload);
            let s = checked_encoding(payload);
            &&& body.len() == v.len()
            &&& s.len() == v.len() + 1
            &&& digits_below(v, 5)
            &&& is_canonical(v)
            &&& decoded_values(v) == payload
            &&& forall|i: int| 0 <= i < v.len() ==> #[trigger] s[i] == ALPHABET@[v[i] as int]
            &&& forall|i: int|
                0 <= i < v.len() ==> symbol_value(#[trigger] s[i]) == v[i] && check_symbol_value(
                    s[i],
                ) == v[i]
            &&& check_symbol_value(s[v.len() as int]) == check_value(payload)
            &&& s[v.len() as int] == CHECK_ALPHABET@[check_value(payload) as int]
            &&& !is_skip_byte(s[v.len() as int])
        }),
{
    let v = encoded_values(payload);
    let s = checked_encoding(payload);
    lemma_decode_encoded(payload);
    lemma_alphabet();
    lemma_check_alphabet();
    lemma2_to64();
    law_check_symbol_reads_back(payload);
    lemma_skip_bytes_are_not_symbols(s[v.len() as int]);
    assert(s[v.len() as int] == CHECK_ALPHABET@[check_value(payload) as int]);
    assert(encoding(payload).len() == v.len());
    assert forall|i: int| 0 <= i < v.len() implies #[trigger] s[i] == ALPHABET@[v[i] as int] by {
        assert(s[i] == encoding(payload)[i]);
    }
    assert forall|i: int| 0 <= i < v.len() implies symbol_value(#[trigger] s[i]) == v[i]
        && check_symbol_value(s[i]) == v[i] by {
        assert(v[i] < 32);
        assert(s[i] == ALPHABET@[v[i] as int]);
        assert(CHECK_ALPHABET@[v[i] as int] == ALPHABET@[v[i] as int]);
    }
}

/// A body of alphabet symbols, altered at `i` to the symbol `x`, has the
/// altered values.
proof fn lemma_altered_body(s: Seq<u8>, v: Seq<u8>, i: int, x: u8)
    requires
        s.len() == v.len() + 1,
        digits_below(v, 5),
        0 <= i < v.len(),
        forall|j: int| 0 <= j < v.len() ==> symbol_value(#[trigger] s[j]) == v[j],
        is_symbol(x),
    ensures
        symbol_values(s.update(i, x).take(v.len() as int)) == v.update(i, symbol_value(x)),
        first_rejected(s.update(i, x).take(v.len() as int)) is None,
        digits_below(v.update(i, symbol_value(x)), 5),
{
    let body = s.update(i, x).take(v.len() as int);
    lemma2_to64();
    crate::alphabet::lemma_symbol_value_range(x);
    assert forall|j: int| 0 <= j < body.len() implies is_symbol(#[trigger] body[j]) by {
        if j != i {
            assert(body[j] == s[j]);
            assert(symbol_value(s[j]) == v[j]);
            assert(v[j] < 32);
        }
    }
    lemma_values_of_symbols(body);
    assert(body.map_values(|b: u8| symbol_value(b)) =~= v.update(i, symbol_value(x)));
    let w = v.update(i, symbol_value(x));
    assert forall|j: int| 0 <= j < w.len() implies (#[trigger] w[j] as nat) < pow2(5) by {
        if j != i {
            assert(w[j] == v[j]);
        }
    }
}

/// Every substitution of a single symbol of a checked encoding by a byte
/// that means something else there is rejected: in the body, either as a
/// non-canonical body or as a check mismatch; at the end, as an invalid or
/// mismatching check symbol. The substituted byte is not one that the
/// check symbol's search skips.
pub proof fn law_check_detects_substitution(payload: Seq<u8>, i: int, x: u8)
    requires
        0 <= i <= encoding(payload).len(),
        !is_skip_byte(x),
        i < encoding(payload).len() ==> symbol_value(x) != symbol_value(
            checked_encoding(payload)[i],
        ),
        i == encoding(payload).len() ==> check_symbol_value(x) != check_symbol_value(
            checked_encoding(payload)[i],
        ),
    ensures
        checked_decoding(checked_encoding(payload).update(i, x)) is Err,
{
    let v = encoded_values(payload);
    let c = v.len() as int;
    let s = checked_encoding(payload);
    let m = s.update(i, x);
    lemma_checked_encoding(payload);
    assert(m.last() == m[c]);
    assert(check_position(m) == Some(c));
    if i == c {
        assert(m.take(c) =~= encoding(payload));
        law_round_trip(payload);
    } else {
        crate::alphabet::lemma_symbol_value_range(x);
        assert(m[c] == s[c]);
        let body = m.take(c);
        if !is_symbol(x) {
            lemma_first_rejected_facts(body);
            assert(body[i] == x);
            assert(is_rejected(body[i]));
        } else {
            let y = symbol_value(x);
            lemma_altered_body(s, v, i, x);
            let v2 = v.update(i, y);
            if strict_decoding(body) is Ok && check_symbol_value(m[c]) as nat == check_value(
                decoded_values(v2),
            ) {
                let place = pow2(5 * (c - 1 - i) as nat);
                crate::radix::lemma_be_value_update(v, i, y, 5);
                assert(symbol_values(body) == v2);
                assert(is_canonical(v2));
                assert(m[c] == s[c]);
                assert(be_value(v2, 5) - be_value(v, 5) == (y - v[i]) * place)
                    by (nonlinear_arith)
                    requires
                        be_value(v2, 5) + v[i] * place == be_value(v, 5) + y * place,
                ;
                lemma_same_check(v, v2, (y - v[i]) * place);
                lemma_pow2_not_37(5 * (c - 1 - i) as nat);
                lemma2_to64();
                assert(v[i] < 32);
                assert((y - v[i]) % 37 != 0);
                lemma_prime_37(y - v[i], place as int);
            }
        }
    }
}

/// Every transposition of two adjacent, different symbols of a checked
/// encoding is rejected, except one that moves a `U` check symbol into the
/// body, where it reads as `V`.
pub proof fn law_check_detects_transposition(payload: Seq<u8>, i: int)
    requires
        0 <= i < encoding(payload).len(),
        checked_encoding(payload)[i] != checked_encoding(payload)[i + 1],
        i + 1 == encoding(payload).len() ==> check_value(payload) != 36,
    ensures
        checked_decoding(
            checked_encoding(payload).update(i, checked_encoding(payload)[i + 1]).update(
                i + 1,
                checked_encoding(payload)[i],
            ),
        ) is Err,
{
    let v = encoded_values(payload);
    let c = v.len() as int;
    let s = checked_encoding(payload);
    let a = s[i];
    let b = s[i + 1];
    let m = s.update(i, b).update(i + 1, a);
    lemma_checked_encoding(payload);
    lemma_alphabet();
    lemma_check_alphabet();
    lemma2_to64();
    assert(m.len() == c + 1);
    assert(v[i] < 32);
    assert(a == ALPHABET@[v[i] as int]);
    lemma_skip_bytes_are_not_symbols(a);
    assert(m.last() == m[c]);
    assert(check_position(m) == Some(c));
    let body = m.take(c);
    if i + 1 < c {
        // Both symbols lie in the body.
        assert(v[i + 1] < 32);
        assert(v[i] != v[i + 1]);
        let v1 = v.update(i, v[i + 1]);
        let v2 = v1.update(i + 1, v[i]);
        lemma_altered_body(s, v, i, b);
        let s1 = s.update(i, b);
        assert forall|j: int| 0 <= j < v1.len() implies symbol_value(#[trigger] s1[j]) == v1[j] by {}
        lemma_altered_body(s1, v1, i + 1, a);
        assert(s1.update(i + 1, a) =~= m);
        assert(m[c] == s[c]);
        if strict_decoding(body) is Ok && check_symbol_value(m[c]) as nat == check_value(
            decoded_values(v2),
        ) {
            let low = pow2(5 * (c - 2 - i) as nat);
            let high = pow2(5 * (c - 1 - i) as nat);
            crate::radix::lemma_be_value_update(v, i, v[i + 1], 5);
            crate::radix::lemma_be_value_update(v1, i + 1, v[i], 5);
            vstd::arithmetic::power2::lemma_pow2_adds(5 * (c - 2 - i) as nat, 5);
            assert(5 * (c - 2 - i) as nat + 5 == 5 * (c - 1 - i) as nat);
            let d = v[i + 1] - v[i];
            assert(be_value(v2, 5) - be_value(v, 5) == (d * 31) * low) by (nonlinear_arith)
                requires
                    be_value(v1, 5) + v[i] * high == be_value(v, 5) + v[i + 1] * high,
                    be_value(v2, 5) + v1[i + 1] * low == be_value(v1, 5) + v[i] * low,
                    v1[i + 1] == v[i + 1],
                    high == low * 32,
                    d == v[i + 1] - v[i],
            ;
            lemma_same_check(v, v2, (d * 31) * low);
            lemma_prime_37(d, 31);
            lemma_pow2_not_37(5 * (c - 2 - i) as nat);
            lemma_prime_37(d * 31, low as int);
        }
    } else {
        // The last body symbol trades places with the check symbol.
        let w = check_value(payload);
        assert(b == CHECK_ALPHABET@[w as int]);
        assert(m[c] == a);
        assert(check_symbol_value(a) == v[i]);
        if w < 32 {
            assert(b == ALPHABET@[w as int]);
            assert(symbol_value(b) == w);
            assert(w != v[i]);
            lemma_altered_body(s, v, i, b);
            let v2 = v.update(i, w as u8);
            assert(m.take(c) =~= s.update(i, b).take(c));
            if strict_decoding(body) is Ok && check_symbol_value(m[c]) as nat == check_value(
                decoded_values(v2),
            ) {
                crate::radix::lemma_be_value_update(v, i, w as u8, 5);
                assert(5 * (c - 1 - i) as nat == 0);
                assert(symbol_values(body) == v2);
                assert(is_canonical(v2));
                lemma_swapped_check(v, v2, w as int, v[i] as int);
            }
        } else {
            // `*`, `~`, `$` and `=` are not payload symbols.
            assert(w < 36);
            assert(!is_symbol(b));
            lemma_first_rejected_facts(body);
            assert(body[i] == b);
            assert(is_rejected(body[i]));
        }
    }
}

/// No transposition of two adjacent, different symbols of a checked
/// encoding decodes to the original payload, the one that moves a `U`
/// check symbol into the body included: there the check symbol that
/// remains is a body symbol, whose value is below 32, while the payload's
/// check value is 36.
pub proof fn law_check_transposition_never_returns_payload(payload: Seq<u8>, i: int)
    requires
        0 <= i < encoding(payload).len(),
        checked_encoding(payload)[i] != checked_encoding(payload)[i + 1],
    ensures
        checked_decoding(
            checked_encoding(payload).update(i, checked_encoding(payload)[i + 1]).update(
                i + 1,
                checked_encoding(payload)[i],
            ),
        ) != Ok::<Seq<u8>, crate::check::CheckError>(payload),
{
    let v = encoded_values(payload);
    let c = v.len() as int;
    let s = checked_encoding(payload);
    lemma_checked_encoding(payload);
    if i + 1 == encoding(payload).len() && check_value(payload) == 36 {
        let m = s.update(i, s[i + 1]).update(i + 1, s[i]);
        lemma2_to64();
        assert(v[i] < 32);
        assert(m[c] == s[i]);
        assert(check_symbol_value(m[c]) == v[i]);
        lemma_skip_bytes_are_not_symbols(m[c]);
        assert(m.last() == m[c]);
        assert(check_position(m) == Some(c));
    } else {
        law_check_detects_transposition(payload, i);
    }
}

/// The first `size` symbols of an encoding depend only on the bytes they
/// cover: once `size` symbols are no more bits than a payload holds, any
/// bytes after it leave them, and so the fixed-size encoding, unchanged.
pub proof fn law_sized_encoding_ignores_suffix(payload: Seq<u8>, suffix: Seq<u8>, size: nat)
    requires
        5 * size <= 8 * payload.len(),
    ensures
        size <= encoding(payload).len(),
        encoding(payload + suffix).take(size as int) == encoding(payload).take(size as int),
        fit(encoding(payload + suffix), size, 48) == fit(encoding(payload), size, 48),
{
    lemma2_to64();
    let n = payload.len();
    let whole = payload + suffix;
    let ev = encoded_values(payload);
    crate::model::lemma_bytes_below(payload);
    crate::model::lemma_bytes_below(whole);
    lemma_regroup_shape(payload, 8, 5);
    lemma_regroup_shape(whole, 8, 5);
    let count = ev.len();
    vstd::arithmetic::div_mod::lemma_fundamental_div_mod((8 * n + 4) as int, 5);
    vstd::arithmetic::div_mod::lemma_mod_pos_bound((8 * n + 4) as int, 5);
    assert(count == symbol_count(n));
    assert(8 * n <= 5 * count && 5 * count < 8 * n + 5);
    assert(size <= count);
    let pad = (5 * count - 8 * n) as nat;
    let bits = (8 * n - 5 * size) as nat;
    let vp = be_value(payload, 8);
    let x = vp * pow2(pad);
    // The value of the first `size` symbols of the payload's encoding.
    crate::radix::lemma_be_value_prefix(ev, size, 5);
    crate::radix::lemma_digits_below_prefix(ev, 5, size as int);
    crate::radix::lemma_be_value_of_digits(x, count, 5);
    crate::radix::lemma_be_value_bound(payload, 8);
    vstd::arithmetic::power2::lemma_pow2_adds(8 * n, pad);
    vstd::arithmetic::power2::lemma_pow2_adds(bits, pad);
    vstd::arithmetic::power2::lemma_pow2_pos(pad);
    vstd::arithmetic::power2::lemma_pow2_pos(bits);
    assert(8 * n + pad == 5 * count);
    assert(5 * (count - size) as nat == bits + pad);
    assert(x < pow2(5 * count)) by (nonlinear_arith)
        requires
            x == vp * pow2(pad),
            vp < pow2(8 * n),
            pow2(5 * count) == pow2(8 * n) * pow2(pad),
            pow2(pad) > 0,
    ;
    vstd::arithmetic::div_mod::lemma_small_mod(x, pow2(5 * count));
    assert(be_value(ev, 5) == x);
    let head = ev.take(size as int);
    vstd::arithmetic::div_mod::lemma_div_denominator(x as int, pow2(pad) as int, pow2(bits) as int);
    assert(x == pow2(pad) * vp) by (nonlinear_arith)
        requires
            x == vp * pow2(pad),
    ;
    vstd::arithmetic::div_mod::lemma_div_multiples_vanish(vp as int, pow2(pad) as int);
    assert(pow2(pad) * pow2(bits) == pow2(bits + pad)) by (nonlinear_arith)
        requires
            pow2(bits + pad) == pow2(bits) * pow2(pad),
    ;
    assert(be_value(head, 5) == vp / pow2(bits));
    vstd::arithmetic::div_mod::lemma_fundamental_div_mod(vp as int, pow2(bits) as int);
    vstd::arithmetic::div_mod::lemma_mod_pos_bound(vp as int, pow2(bits) as int);
    assert(vp == be_value(head, 5) * pow2(bits) + vp % pow2(bits)) by (nonlinear_arith)
        requires
            vp == pow2(bits) * (vp / pow2(bits)) + vp % pow2(bits),
            be_value(head, 5) == vp / pow2(bits),
    ;
    assert(whole.take(n as int) =~= payload);
    assert(8 * n == 5 * head.len() + bits);
    lemma_regroup_prefix(whole, 8, 5, n, head, bits, vp % pow2(bits));
    let ew = encoded_values(whole);
    assert(ew.take(size as int) =~= head);
    assert forall|t: int| 0 <= t < size implies encoding(whole)[t] == encoding(payload)[t] by {
        assert(ew[t] == ew.take(size as int)[t]);
        assert(ev[t] == head[t]);
    }
    assert(encoding(whole).take(size as int) =~= encoding(payload).take(size as int));
    assert(fit(encoding(whole), size, 48) =~= fit(encoding(payload), size, 48)) by {
        assert forall|t: int| 0 <= t < size implies encoding(whole)[t] == encoding(payload)[t] by {
            assert(encoding(whole).take(size as int)[t] == encoding(payload).take(size as int)[t]);
        }
    }
}

/// Sized round trip: when the fixed-size encoding holds the whole
/// encoding, padded with `'0'` symbols, decoding it with trailing bits
/// kept gives the payload back at its front.
pub proof fn law_sized_round_trip(payload: Seq<u8>, size: nat)
    requires
        size >= symbol_count(payload.len()),
    ensures
        flushed_decoding(fit(encoding(payload), size, 48)).len() >= payload.len(),
        flushed_decoding(fit(encoding(payload), size, 48)).take(payload.len() as int) == payload,
{
    let v = encoded_values(payload);
    let c = v.len();
    let n = payload.len();
    let text = fit(encoding(payload), size, 48);
    lemma_decode_encoded(payload);
    lemma_alphabet();
    lemma2_to64();
    crate::alphabet::lemma_symbol_value_range(48);
    assert forall|i: int| 0 <= i < text.len() implies is_symbol(#[trigger] text[i]) by {
        if i < c {
            assert(v[i] < 32);
            assert(text[i] == ALPHABET@[v[i] as int]);
        }
    }
    lemma_values_of_symbols(text);
    let values = symbol_values(text);
    assert(values.take(c as int) =~= v) by {
        assert forall|i: int| 0 <= i < c implies values[i] == v[i] by {
            assert(v[i] < 32);
            assert(text[i] == ALPHABET@[v[i] as int]);
        }
    }
    assert(digits_below(values, 5)) by {
        assert forall|i: int| 0 <= i < values.len() implies (#[trigger] values[i] as nat) < pow2(5) by {
            if i < c {
                assert(values[i] == v[i]);
            }
        }
    }
    crate::model::lemma_bytes_below(payload);
    lemma_regroup_shape(payload, 8, 5);
    let pad = (5 * c - 8 * n) as nat;
    vstd::arithmetic::power2::lemma_pow2_pos(pad);
    assert(be_value(payload, 8) * pow2(pad) + 0nat % pow2(pad) == be_value(payload, 8) * pow2(pad));
    lemma_regroup_prefix(values, 5, 8, c, payload, pad, 0);
}

/// Truncated sized round trip: the first `k` symbols of an encoding,
/// decoded with their trailing bits kept as a final left-aligned byte,
/// give the payload's first `decoded_len(k)` bytes and then the leading
/// bits of the next byte, its other bits zero.
pub proof fn law_prefix_keeps_leading_bits(payload: Seq<u8>, k: nat)
    requires
        k <= symbol_count(payload.len()),
        byte_count(k) < payload.len(),
    ensures
        ({
            let m = byte_count(k);
            let r = leftover_bits(k);
            let kept = ((payload[m as int] as nat / pow2((8 - r) as nat)) * pow2(
                (8 - r) as nat,
            )) as u8;
            flushed_decoding(encoding(payload).take(k as int)) == if r == 0 {
                payload.take(m as int)
            } else {
                payload.take(m as int).push(kept)
            }
        }),
{
    let v = encoded_values(payload);
    let n = payload.len();
    let c = v.len();
    let m = byte_count(k);
    let r = leftover_bits(k);
    lemma_decode_encoded(payload);
    crate::model::lemma_bytes_below(payload);
    lemma_regroup_shape(payload, 8, 5);
    let head = v.take(k as int);
    crate::radix::lemma_digits_below_prefix(v, 5, k as int);
    lemma_symbol_values_of_spelling(head);
    assert(encoding(payload).take(k as int) =~= spell(head));
    assert(flushed_decoding(encoding(payload).take(k as int)) == crate::model::regroup(
        head,
        5,
        8,
    ));
    if r == 0 {
        law_prefix_of_encoding(payload, k);
        vstd::arithmetic::div_mod::lemma_fundamental_div_mod((5 * k) as int, 8);
        lemma_decode_decoded_flush(head);
    } else {
        lemma_leading_bits(payload, k);
    }
}

/// With no leftover bits, keeping them changes nothing.
proof fn lemma_decode_decoded_flush(values: Seq<u8>)
    requires
        digits_below(values, 5),
        leftover_bits(values.len()) == 0,
    ensures
        crate::model::regroup(values, 5, 8) == decoded_values(values),
{
    lemma2_to64();
    let c = values.len();
    vstd::arithmetic::div_mod::lemma_fundamental_div_mod((5 * c) as int, 8);
    vstd::arithmetic::div_mod::lemma_fundamental_div_mod_converse(
        (5 * c + 7) as int,
        8,
        byte_count(c) as int,
        7,
    );
    assert(be_value(values, 5) / 1 == be_value(values, 5));
    assert(be_value(values, 5) * 1 == be_value(values, 5));
}

/// The value arithmetic behind [`law_prefix_keeps_leading_bits`] when some
/// bits are left over.
proof fn lemma_leading_bits(payload: Seq<u8>, k: nat)
    requires
        k <= symbol_count(payload.len()),
        byte_count(k) < payload.len(),
        leftover_bits(k) > 0,
    ensures
        ({
            let m = byte_count(k);
            let r = leftover_bits(k);
            let kept = ((payload[m as int] as nat / pow2((8 - r) as nat)) * pow2(
                (8 - r) as nat,
            )) as u8;
            crate::model::regroup(encoded_values(payload).take(k as int), 5, 8) == payload.take(
                m as int,
            ).push(kept)
        }),
{
    let v = encoded_values(payload);
    let n = payload.len();
    let c = v.len();
    let m = byte_count(k);
    let r = leftover_bits(k);
    let s = (8 - r) as nat;
    lemma_decode_encoded(payload);
    crate::model::lemma_bytes_below(payload);
    lemma_regroup_shape(payload, 8, 5);
    lemma2_to64();
    vstd::arithmetic::div_mod::lemma_fundamental_div_mod((5 * k) as int, 8);
    let pad = (5 * c - 8 * n) as nat;
    let d = be_value(v, 5);
    let total = be_value(payload, 8);
    assert(d == total * pow2(pad));
    // The head's value is the payload's leading `5k` bits.
    let head = v.take(k as int);
    crate::radix::lemma_be_value_prefix(v, k, 5);
    let cut = (5 * (c - k)) as nat;
    assert(be_value(head, 5) == d / pow2(cut));
    let low = (8 * (n - m) - r) as nat;
    assert(cut == low + pad);
    vstd::arithmetic::power2::lemma_pow2_pos(pad);
    vstd::arithmetic::power2::lemma_pow2_pos(low);
    vstd::arithmetic::power2::lemma_pow2_pos(s);
    vstd::arithmetic::power2::lemma_pow2_adds(pad, low);
    vstd::arithmetic::div_mod::lemma_div_denominator(d as int, pow2(pad) as int, pow2(low) as int);
    assert(d / pow2(pad) == total) by {
        vstd::arithmetic::div_mod::lemma_div_multiples_vanish(total as int, pow2(pad) as int);
        assert(total * pow2(pad) == pow2(pad) * total) by (nonlinear_arith);
    }
    assert(pow2(pad) * pow2(low) == pow2(cut)) by {
        assert(pad + low == cut);
    }
    assert(be_value(head, 5) == total / pow2(low));
    // Split the payload after its first `m + 1` bytes.
    let front = payload.take(m as int + 1);
    crate::radix::lemma_be_value_prefix(payload, (m + 1) as nat, 8);
    let rest = (8 * (n - m - 1)) as nat;
    assert(low == rest + s);
    vstd::arithmetic::power2::lemma_pow2_pos(rest);
    vstd::arithmetic::power2::lemma_pow2_adds(rest, s);
    vstd::arithmetic::div_mod::lemma_div_denominator(total as int, pow2(rest) as int, pow2(s) as int);
    let f = be_value(front, 8);
    assert(total / pow2(rest) == f);
    assert(be_value(head, 5) == f / pow2(s));
    let pm = payload.take(m as int);
    let byte = payload[m as int];
    assert(front.drop_last() =~= pm);
    assert(front.last() == byte);
    let bp = be_value(pm, 8);
    assert(f == bp * 256 + byte);
    // `f / 2^s` keeps the leading `r` bits of `byte`.
    vstd::arithmetic::power2::lemma_pow2_adds(r, s);
    assert(r + s == 8);
    assert(256 == pow2(r) * pow2(s));
    vstd::arithmetic::div_mod::lemma_fundamental_div_mod(byte as int, pow2(s) as int);
    let q = byte as nat / pow2(s);
    let rem = byte as nat % pow2(s);
    vstd::arithmetic::div_mod::lemma_mod_pos_bound(byte as int, pow2(s) as int);
    assert(f == (bp * pow2(r) + q) * pow2(s) + rem) by (nonlinear_arith)
        requires
            f == bp * 256 + byte,
            256 == pow2(r) * pow2(s),
            byte == pow2(s) * q + rem,
    ;
    vstd::arithmetic::div_mod::lemma_fundamental_div_mod_converse(
        f as int,
        pow2(s) as int,
        (bp * pow2(r) + q) as int,
        rem as int,
    );
    let kept = (q * pow2(s)) as u8;
    assert(q * pow2(s) <= byte) by (nonlinear_arith)
        requires
            byte == pow2(s) * q + rem,
    ;
    let out = pm.push(kept);
    crate::model::lemma_be_value_push(pm, kept, 8);
    assert(be_value(out, 8) == be_value(head, 5) * pow2(s)) by (nonlinear_arith)
        requires
            be_value(out, 8) == bp * 256 + kept,
            kept == q * pow2(s),
            be_value(head, 5) == bp * pow2(r) + q,
            256 == pow2(r) * pow2(s),
    ;
    crate::model::lemma_bytes_below(out);
    vstd::arithmetic::div_mod::lemma_fundamental_div_mod_converse(
        (5 * k + 7) as int,
        8,
        (m + 1) as int,
        (r - 1) as int,
    );
    assert(8 * (m + 1) - 5 * k == s);
    crate::model::lemma_regroup_unique(head, 5, 8, out);
}

} // verus!
