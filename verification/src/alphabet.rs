//! The Crockford alphabet, its decoding tables, and the check alphabet.

use vstd::prelude::*;

verus! {

/// Sentinel marking bytes that are not part of the Crockford alphabet.
pub const INVALID: u8 = 0xff;

/// The hyphen, an insignificant separator in Crockford strings.
pub const HYPHEN: u8 = 0x2d;

/// The Crockford Base32 alphabet: digits 0-9 followed by the twenty-two
/// letters A-Z excluding I, L, O, and U.
pub const ALPHABET: [u8; 32] = [
    48, 49, 50, 51, 52, 53, 54, 55,  // 0 1 2 3 4 5 6 7
    56, 57, 65, 66, 67, 68, 69, 70,  // 8 9 A B C D E F
    71, 72, 74, 75, 77, 78, 80, 81,  // G H J K M N P Q
    82, 83, 84, 86, 87, 88, 89, 90,  // R S T V W X Y Z
];

/// Lookup table mapping each byte to its five-bit Crockford value, or to
/// [`INVALID`] for unrecognized bytes.
///
/// The canonical alphabet is `0`-`9`, `A`-`H`, `J`, `K`, `M`, `N`, `P`-`T`,
/// and `V`-`Z`. Lowercase letters are accepted as aliases for their
/// uppercase counterparts, as are the visually ambiguous glyphs `O`/`o`
/// (read as `0`), `I`/`i`/`L`/`l` (read as `1`), and `U`/`u` (read as `V`).
pub const DECODE_MAP: [u8; 256] = [
    255, 255, 255, 255, 255, 255, 255, 255, 255, 255, 255, 255, 255, 255, 255, 255,
    255, 255, 255, 255, 255, 255, 255, 255, 255, 255, 255, 255, 255, 255, 255, 255,
    255, 255, 255, 255, 255, 255, 255, 255, 255, 255, 255, 255, 255, 255, 255, 255,
    0, 1, 2, 3, 4, 5, 6, 7, 8, 9, 255, 255, 255, 255, 255, 255,
    255, 10, 11, 12, 13, 14, 15, 16, 17, 1, 18, 19, 1, 20, 21, 0,
    22, 23, 24, 25, 26, 27, 27, 28, 29, 30, 31, 255, 255, 255, 255, 255,
    255, 10, 11, 12, 13, 14, 15, 16, 17, 1, 18, 19, 1, 20, 21, 0,
    22, 23, 24, 25, 26, 27, 27, 28, 29, 30, 31, 255, 255, 255, 255, 255,
    255, 255, 255, 255, 255, 255, 255, 255, 255, 255, 255, 255, 255, 255, 255, 255,
    255, 255, 255, 255, 255, 255, 255, 255, 255, 255, 255, 255, 255, 255, 255, 255,
    255, 255, 255, 255, 255, 255, 255, 255, 255, 255, 255, 255, 255, 255, 255, 255,
    255, 255, 255, 255, 255, 255, 255, 255, 255, 255, 255, 255, 255, 255, 255, 255,
    255, 255, 255, 255, 255, 255, 255, 255, 255, 255, 255, 255, 255, 255, 255, 255,
    255, 255, 255, 255, 255, 255, 255, 255, 255, 255, 255, 255, 255, 255, 255, 255,
    255, 255, 255, 255, 255, 255, 255, 255, 255, 255, 255, 255, 255, 255, 255, 255,
    255, 255, 255, 255, 255, 255, 255, 255, 255, 255, 255, 255, 255, 255, 255, 255,
];

/// The 37-symbol check alphabet: the 32-symbol [`ALPHABET`] followed by the
/// five check-only symbols `*`, `~`, `$`, `=`, and `U` at indices 32-36.
pub const CHECK_ALPHABET: [u8; 37] = [
    48, 49, 50, 51, 52, 53, 54, 55,  // 0 1 2 3 4 5 6 7
    56, 57, 65, 66, 67, 68, 69, 70,  // 8 9 A B C D E F
    71, 72, 74, 75, 77, 78, 80, 81,  // G H J K M N P Q
    82, 83, 84, 86, 87, 88, 89, 90,  // R S T V W X Y Z
    42, 126, 36, 61, 85,  // * ~ $ = U
];

/// Lookup table mapping each byte to its check-alphabet value (`0..37`),
/// or to [`INVALID`] for unrecognized bytes.
///
/// Extends [`DECODE_MAP`] with values 32-36 for `*`, `~`, `$`, `=`, and
/// `U`/`u`. The ambiguous-glyph aliases of [`DECODE_MAP`] apply to check
/// symbols as well; the one divergence is `U`/`u`, read as `V` in a payload
/// but as check value 36 here.
pub const CHECK_DECODE_MAP: [u8; 256] = [
    255, 255, 255, 255, 255, 255, 255, 255, 255, 255, 255, 255, 255, 255, 255, 255,
    255, 255, 255, 255, 255, 255, 255, 255, 255, 255, 255, 255, 255, 255, 255, 255,
    255, 255, 255, 255, 34, 255, 255, 255, 255, 255, 32, 255, 255, 255, 255, 255,
    0, 1, 2, 3, 4, 5, 6, 7, 8, 9, 255, 255, 255, 35, 255, 255,
    255, 10, 11, 12, 13, 14, 15, 16, 17, 1, 18, 19, 1, 20, 21, 0,
    22, 23, 24, 25, 26, 36, 27, 28, 29, 30, 31, 255, 255, 255, 255, 255,
    255, 10, 11, 12, 13, 14, 15, 16, 17, 1, 18, 19, 1, 20, 21, 0,
    22, 23, 24, 25, 26, 36, 27, 28, 29, 30, 31, 255, 255, 255, 33, 255,
    255, 255, 255, 255, 255, 255, 255, 255, 255, 255, 255, 255, 255, 255, 255, 255,
    255, 255, 255, 255, 255, 255, 255, 255, 255, 255, 255, 255, 255, 255, 255, 255,
    255, 255, 255, 255, 255, 255, 255, 255, 255, 255, 255, 255, 255, 255, 255, 255,
    255, 255, 255, 255, 255, 255, 255, 255, 255, 255, 255, 255, 255, 255, 255, 255,
    255, 255, 255, 255, 255, 255, 255, 255, 255, 255, 255, 255, 255, 255, 255, 255,
    255, 255, 255, 255, 255, 255, 255, 255, 255, 255, 255, 255, 255, 255, 255, 255,
    255, 255, 255, 255, 255, 255, 255, 255, 255, 255, 255, 255, 255, 255, 255, 255,
    255, 255, 255, 255, 255, 255, 255, 255, 255, 255, 255, 255, 255, 255, 255, 255,
];


/// The value of an uppercase letter or a digit in a payload, or [`INVALID`].
pub open spec fn upper_symbol_value(b: u8) -> u8 {
    if 48 <= b <= 57 {
        (b - 48) as u8  // '0'..='9' are 0..=9
    } else if 65 <= b <= 72 {
        (b - 55) as u8  // 'A'..='H' are 10..=17
    } else if b == 73 || b == 76 {
        1  // 'I' and 'L' read as '1'
    } else if b == 74 || b == 75 {
        (b - 56) as u8  // 'J', 'K' are 18, 19
    } else if b == 77 || b == 78 {
        (b - 57) as u8  // 'M', 'N' are 20, 21
    } else if b == 79 {
        0  // 'O' reads as '0'
    } else if 80 <= b <= 84 {
        (b - 58) as u8  // 'P'..='T' are 22..=26
    } else if b == 85 {
        27  // 'U' reads as 'V'
    } else if 86 <= b <= 90 {
        (b - 59) as u8  // 'V'..='Z' are 27..=31
    } else {
        INVALID
    }
}

/// The value a byte denotes in a payload: case-insensitive, with the
/// ambiguous glyphs read as their lookalikes, or [`INVALID`].
pub open spec fn symbol_value(b: u8) -> u8 {
    if 97 <= b <= 122 {
        upper_symbol_value((b - 32) as u8)
    } else {
        upper_symbol_value(b)
    }
}

/// Whether a byte denotes a payload symbol.
pub open spec fn is_symbol(b: u8) -> bool {
    symbol_value(b) != INVALID
}

/// The value a byte denotes as a trailing check symbol, or [`INVALID`].
pub open spec fn check_symbol_value(b: u8) -> u8 {
    if b == 42 {
        32  // '*'
    } else if b == 126 {
        33  // '~'
    } else if b == 36 {
        34  // '$'
    } else if b == 61 {
        35  // '='
    } else if b == 85 || b == 117 {
        36  // 'U' and 'u'
    } else {
        symbol_value(b)
    }
}

/// A byte denotes a 5-bit value or nothing; a hyphen denotes nothing.
pub proof fn lemma_symbol_value_range(b: u8)
    ensures
        symbol_value(b) == INVALID || symbol_value(b) < 32,
        check_symbol_value(b) == INVALID || check_symbol_value(b) < 37,
        !is_symbol(HYPHEN),
{
}

/// [`DECODE_MAP`] holds [`symbol_value`] for every byte.
pub proof fn lemma_decode_map()
    ensures
        forall|b: u8| #[trigger] DECODE_MAP@[b as int] == symbol_value(b),
{
    assert forall|b: u8| 0 <= b < 48 implies DECODE_MAP@[b as int] == symbol_value(b) by {}
    assert forall|b: u8| 48 <= b < 58 implies DECODE_MAP@[b as int] == symbol_value(b) by {}
    assert forall|b: u8| 58 <= b < 65 implies DECODE_MAP@[b as int] == symbol_value(b) by {}
    assert forall|b: u8| 65 <= b < 73 implies DECODE_MAP@[b as int] == symbol_value(b) by {}
    assert forall|b: u8| 73 <= b < 74 implies DECODE_MAP@[b as int] == symbol_value(b) by {}
    assert forall|b: u8| 74 <= b < 76 implies DECODE_MAP@[b as int] == symbol_value(b) by {}
    assert forall|b: u8| 76 <= b < 77 implies DECODE_MAP@[b as int] == symbol_value(b) by {}
    assert forall|b: u8| 77 <= b < 79 implies DECODE_MAP@[b as int] == symbol_value(b) by {}
    assert forall|b: u8| 79 <= b < 80 implies DECODE_MAP@[b as int] == symbol_value(b) by {}
    assert forall|b: u8| 80 <= b < 85 implies DECODE_MAP@[b as int] == symbol_value(b) by {}
    assert forall|b: u8| 85 <= b < 86 implies DECODE_MAP@[b as int] == symbol_value(b) by {}
    assert forall|b: u8| 86 <= b < 91 implies DECODE_MAP@[b as int] == symbol_value(b) by {}
    assert forall|b: u8| 91 <= b < 97 implies DECODE_MAP@[b as int] == symbol_value(b) by {}
    assert forall|b: u8| 97 <= b < 105 implies DECODE_MAP@[b as int] == symbol_value(b) by {}
    assert forall|b: u8| 105 <= b < 106 implies DECODE_MAP@[b as int] == symbol_value(b) by {}
    assert forall|b: u8| 106 <= b < 108 implies DECODE_MAP@[b as int] == symbol_value(b) by {}
    assert forall|b: u8| 108 <= b < 109 implies DECODE_MAP@[b as int] == symbol_value(b) by {}
    assert forall|b: u8| 109 <= b < 111 implies DECODE_MAP@[b as int] == symbol_value(b) by {}
    assert forall|b: u8| 111 <= b < 112 implies DECODE_MAP@[b as int] == symbol_value(b) by {}
    assert forall|b: u8| 112 <= b < 117 implies DECODE_MAP@[b as int] == symbol_value(b) by {}
    assert forall|b: u8| 117 <= b < 118 implies DECODE_MAP@[b as int] == symbol_value(b) by {}
    assert forall|b: u8| 118 <= b < 123 implies DECODE_MAP@[b as int] == symbol_value(b) by {}
    assert forall|b: u8| 123 <= b < 256 implies DECODE_MAP@[b as int] == symbol_value(b) by {}
}

/// [`CHECK_DECODE_MAP`] holds [`check_symbol_value`] for every byte.
pub proof fn lemma_check_decode_map()
    ensures
        forall|b: u8| #[trigger] CHECK_DECODE_MAP@[b as int] == check_symbol_value(b),
{
    assert forall|b: u8| 0 <= b < 36 implies CHECK_DECODE_MAP@[b as int] == check_symbol_value(b) by {}
    assert forall|b: u8| 36 <= b < 37 implies CHECK_DECODE_MAP@[b as int] == check_symbol_value(b) by {}
    assert forall|b: u8| 37 <= b < 42 implies CHECK_DECODE_MAP@[b as int] == check_symbol_value(b) by {}
    assert forall|b: u8| 42 <= b < 43 implies CHECK_DECODE_MAP@[b as int] == check_symbol_value(b) by {}
    assert forall|b: u8| 43 <= b < 48 implies CHECK_DECODE_MAP@[b as int] == check_symbol_value(b) by {}
    assert forall|b: u8| 48 <= b < 58 implies CHECK_DECODE_MAP@[b as int] == check_symbol_value(b) by {}
    assert forall|b: u8| 58 <= b < 61 implies CHECK_DECODE_MAP@[b as int] == check_symbol_value(b) by {}
    assert forall|b: u8| 61 <= b < 62 implies CHECK_DECODE_MAP@[b as int] == check_symbol_value(b) by {}
    assert forall|b: u8| 62 <= b < 65 implies CHECK_DECODE_MAP@[b as int] == check_symbol_value(b) by {}
    assert forall|b: u8| 65 <= b < 73 implies CHECK_DECODE_MAP@[b as int] == check_symbol_value(b) by {}
    assert forall|b: u8| 73 <= b < 74 implies CHECK_DECODE_MAP@[b as int] == check_symbol_value(b) by {}
    assert forall|b: u8| 74 <= b < 76 implies CHECK_DECODE_MAP@[b as int] == check_symbol_value(b) by {}
    assert forall|b: u8| 76 <= b < 77 implies CHECK_DECODE_MAP@[b as int] == check_symbol_value(b) by {}
    assert forall|b: u8| 77 <= b < 79 implies CHECK_DECODE_MAP@[b as int] == check_symbol_value(b) by {}
    assert forall|b: u8| 79 <= b < 80 implies CHECK_DECODE_MAP@[b as int] == check_symbol_value(b) by {}
    assert forall|b: u8| 80 <= b < 85 implies CHECK_DECODE_MAP@[b as int] == check_symbol_value(b) by {}
    assert forall|b: u8| 85 <= b < 86 implies CHECK_DECODE_MAP@[b as int] == check_symbol_value(b) by {}
    assert forall|b: u8| 86 <= b < 91 implies CHECK_DECODE_MAP@[b as int] == check_symbol_value(b) by {}
    assert forall|b: u8| 91 <= b < 97 implies CHECK_DECODE_MAP@[b as int] == check_symbol_value(b) by {}
    assert forall|b: u8| 97 <= b < 105 implies CHECK_DECODE_MAP@[b as int] == check_symbol_value(b) by {}
    assert forall|b: u8| 105 <= b < 106 implies CHECK_DECODE_MAP@[b as int] == check_symbol_value(b) by {}
    assert forall|b: u8| 106 <= b < 108 implies CHECK_DECODE_MAP@[b as int] == check_symbol_value(b) by {}
    assert forall|b: u8| 108 <= b < 109 implies CHECK_DECODE_MAP@[b as int] == check_symbol_value(b) by {}
    assert forall|b: u8| 109 <= b < 111 implies CHECK_DECODE_MAP@[b as int] == check_symbol_value(b) by {}
    assert forall|b: u8| 111 <= b < 112 implies CHECK_DECODE_MAP@[b as int] == check_symbol_value(b) by {}
    assert forall|b: u8| 112 <= b < 117 implies CHECK_DECODE_MAP@[b as int] == check_symbol_value(b) by {}
    assert forall|b: u8| 117 <= b < 118 implies CHECK_DECODE_MAP@[b as int] == check_symbol_value(b) by {}
    assert forall|b: u8| 118 <= b < 123 implies CHECK_DECODE_MAP@[b as int] == check_symbol_value(b) by {}
    assert forall|b: u8| 123 <= b < 126 implies CHECK_DECODE_MAP@[b as int] == check_symbol_value(b) by {}
    assert forall|b: u8| 126 <= b < 127 implies CHECK_DECODE_MAP@[b as int] == check_symbol_value(b) by {}
    assert forall|b: u8| 127 <= b < 256 implies CHECK_DECODE_MAP@[b as int] == check_symbol_value(b) by {}
}

/// Every symbol of [`ALPHABET`] is an ASCII byte other than the hyphen that
/// decodes to its own index.
pub proof fn lemma_alphabet()
    ensures
        forall|v: int|
            0 <= v < 32 ==> {
                &&& symbol_value(#[trigger] ALPHABET@[v]) == v
                &&& ALPHABET@[v] < 128
                &&& ALPHABET@[v] != HYPHEN
            },
{
    assert forall|v: int| 0 <= v < 32 implies {
        &&& symbol_value(#[trigger] ALPHABET@[v]) == v
        &&& ALPHABET@[v] < 128
        &&& ALPHABET@[v] != HYPHEN
    } by {}
}

/// [`CHECK_ALPHABET`] extends [`ALPHABET`], and every check symbol is an
/// ASCII byte that reads back as its own index.
pub proof fn lemma_check_alphabet()
    ensures
        forall|v: int|
            0 <= v < 37 ==> {
                &&& check_symbol_value(#[trigger] CHECK_ALPHABET@[v]) == v
                &&& CHECK_ALPHABET@[v] < 128
            },
        forall|v: int| 0 <= v < 32 ==> #[trigger] CHECK_ALPHABET@[v] == ALPHABET@[v],
{
    assert forall|v: int| 0 <= v < 37 implies {
        &&& check_symbol_value(#[trigger] CHECK_ALPHABET@[v]) == v
        &&& CHECK_ALPHABET@[v] < 128
    } by {}
    assert forall|v: int| 0 <= v < 32 implies #[trigger] CHECK_ALPHABET@[v] == ALPHABET@[v] by {}
}

} // verus!
