//! ASCII text: turning symbol bytes into `str` and `String` values, and
//! handing text to a `core::fmt::Write` sink.

use vstd::prelude::*;

verus! {

#[verifier::external_type_specification]
#[verifier::external_body]
pub struct ExFmtError(core::fmt::Error);

/// The characters that ASCII `bytes` spell, one per byte.
pub open spec fn ascii_text(bytes: Seq<u8>) -> Seq<char> {
    bytes.map_values(|b: u8| b as char)
}

/// Every byte of `bytes` is ASCII.
pub open spec fn is_ascii_bytes(bytes: Seq<u8>) -> bool {
    forall|i: int| 0 <= i < bytes.len() ==> #[trigger] bytes[i] < 128
}

/// Calls `String::from_utf8`. ASCII bytes are valid UTF-8 in which every
/// byte is one character with that code point, so the string holds exactly
/// the characters that the bytes spell, and the conversion cannot fail.
#[verifier::external_body]
pub(crate) fn ascii_string(bytes: Vec<u8>) -> (text: String)
    requires
        is_ascii_bytes(bytes@),
    ensures
        text@ == ascii_text(bytes@),
{
    String::from_utf8(bytes).expect("ASCII bytes are valid UTF-8")
}

/// Calls `core::str::from_utf8`. ASCII bytes are valid UTF-8 in which every
/// byte is one character with that code point, so the string slice holds
/// exactly the characters that the bytes spell, and the conversion cannot
/// fail.
#[verifier::external_body]
pub(crate) fn ascii_str(bytes: &[u8]) -> (text: &str)
    requires
        is_ascii_bytes(bytes@),
    ensures
        text@ == ascii_text(bytes@),
{
    core::str::from_utf8(bytes).expect("ASCII bytes are valid UTF-8")
}

/// Calls `core::fmt::Write::write_str` on `sink`. What the sink does with
/// the text, and whether it reports an error, is up to its implementation,
/// so nothing is stated of the result.
#[verifier::external_body]
pub(crate) fn sink_write_str<W: core::fmt::Write>(sink: &mut W, text: &str) -> core::fmt::Result {
    sink.write_str(text)
}

/// Calls `core::fmt::Write::write_char` on `sink`. What the sink does with
/// the character, and whether it reports an error, is up to its
/// implementation, so nothing is stated of the result.
#[verifier::external_body]
pub(crate) fn sink_write_char<W: core::fmt::Write>(sink: &mut W, c: char) -> core::fmt::Result {
    sink.write_char(c)
}

/// The decimal digits of `n`, most significant first, as ASCII bytes.
pub open spec fn decimal_bytes(n: nat) -> Seq<u8>
    decreases n,
{
    if n < 10 {
        seq![(48 + n) as u8]
    } else {
        decimal_bytes(n / 10).push((48 + n % 10) as u8)
    }
}

/// The lowercase hexadecimal digit of `d < 16`, as an ASCII byte.
pub open spec fn hex_digit(d: nat) -> u8 {
    if d < 10 {
        (48 + d) as u8
    } else {
        (87 + d) as u8
    }
}

/// `byte` written as `0x` and two lowercase hexadecimal digits.
pub open spec fn hex_byte_bytes(byte: u8) -> Seq<u8> {
    seq![48u8, 120u8, hex_digit(byte as nat / 16), hex_digit(byte as nat % 16)]
}

proof fn lemma_decimal_ascii(n: nat)
    ensures
        is_ascii_bytes(decimal_bytes(n)),
    decreases n,
{
    if n >= 10 {
        lemma_decimal_ascii(n / 10);
        let d = decimal_bytes(n);
        let prefix = decimal_bytes(n / 10);
        assert forall|i: int| 0 <= i < d.len() implies #[trigger] d[i] < 128 by {
            if i < prefix.len() {
                assert(d[i] == prefix[i]);
            }
        }
    }
}

/// Appends the decimal digits of `n` to `out`.
fn push_decimal(out: &mut Vec<u8>, n: usize)
    ensures
        final(out)@ == old(out)@ + decimal_bytes(n as nat),
    decreases n,
{
    if n >= 10 {
        push_decimal(out, n / 10);
    }
    out.push((48 + n % 10) as u8);
    proof {
        if n >= 10 {
            assert(final(out)@ =~= old(out)@ + decimal_bytes(n as nat));
        } else {
            assert(final(out)@ =~= old(out)@ + decimal_bytes(n as nat));
        }
    }
}

/// `n` in decimal.
pub(crate) fn decimal_string(n: usize) -> (text: String)
    ensures
        text@ == ascii_text(decimal_bytes(n as nat)),
{
    let mut digits: Vec<u8> = Vec::new();
    push_decimal(&mut digits, n);
    proof {
        assert(digits@ =~= decimal_bytes(n as nat));
        lemma_decimal_ascii(n as nat);
    }
    ascii_string(digits)
}

/// `byte` as `0x` followed by two lowercase hexadecimal digits.
pub(crate) fn hex_byte_string(byte: u8) -> (text: String)
    ensures
        text@ == ascii_text(hex_byte_bytes(byte)),
{
    let high = byte / 16;
    let low = byte % 16;
    let mut digits: Vec<u8> = Vec::new();
    digits.push(48);
    digits.push(120);
    digits.push(if high < 10 { 48 + high } else { 87 + high });
    digits.push(if low < 10 { 48 + low } else { 87 + low });
    proof {
        assert(digits@ =~= hex_byte_bytes(byte));
    }
    ascii_string(digits)
}

} // verus!
