//! Concrete instances of the library's laws, and the fuzz targets'
//! properties checked over deterministic pseudo-random inputs.

use ps_crockford32::{
    check_digit, check_symbol, decode, decode_to_slice, decode_with_check, decoded_len, encode,
    encode_into, encode_to_slice, encode_with_check, encoded_len, encoded_pieces, sized_decode,
    sized_encode,
    try_decode, try_decode_to_slice, CapacityError, CheckError, DecodeError, ALPHABET,
    CHECK_ALPHABET, CHECK_DECODE_MAP, DECODE_MAP, INVALID,
};

/// Deterministic pseudo-random bytes.
fn bytes(length: usize, seed: u64) -> Vec<u8> {
    let mut state = seed;
    let mut output = Vec::with_capacity(length);

    for _ in 0..length {
        state = state
            .wrapping_mul(6_364_136_223_846_793_005)
            .wrapping_add(1);
        output.push((state >> 56) as u8);
    }

    output
}

/// Whether `byte` is skipped when locating a check symbol.
fn is_skip(byte: u8) -> bool {
    byte.is_ascii_whitespace() || byte == b'-'
}

/// The input with hyphens removed and every remaining symbol folded to its
/// canonical uppercase spelling, or `None` if some byte is neither.
fn normalize(input: &[u8]) -> Option<Vec<u8>> {
    input
        .iter()
        .filter(|&&byte| byte != b'-')
        .map(|&byte| match DECODE_MAP[byte as usize] {
            INVALID => None,
            value => Some(ALPHABET[value as usize]),
        })
        .collect()
}

#[test]
fn law_round_trip_on_payloads() {
    for length in 0..=48 {
        let payload = bytes(length, 0x5151_0000 + length as u64);
        let encoded = encode(&payload);

        assert_eq!(decode(encoded.as_bytes()), payload);
        assert_eq!(try_decode(encoded.as_bytes()), Ok(payload.clone()));
        assert_eq!(normalize(encoded.as_bytes()).as_deref(), Some(encoded.as_bytes()));
    }
}

#[test]
fn law_encoding_shape_on_payloads() {
    for length in 0..=48 {
        let payload = bytes(length, 0x7777 + length as u64);
        let encoded = encode(&payload);

        assert_eq!(encoded.len(), encoded_len(length));
        assert!(encoded.bytes().all(|b| ALPHABET.contains(&b)));
    }
}

#[test]
fn law_length_helpers_on_values() {
    for n in 0..2000usize {
        assert_eq!(decoded_len(encoded_len(n)), n, "n={n}");
    }

    for input in [&b""[..], b"D1MG", b" d-1 m@g\n", b"----", b"ZZZZZZZZZ"] {
        let symbols = input
            .iter()
            .filter(|&&b| DECODE_MAP[b as usize] != INVALID)
            .count();

        assert_eq!(decode(input).len(), decoded_len(symbols));
        assert!(decode(input).len() <= decoded_len(input.len()));
    }
}

#[test]
fn law_strict_accepts_exactly_the_canonical_spellings() {
    // Arbitrary strings over the payload alphabet, its aliases, and the
    // hyphen: each accepted one normalizes to the encoding of its payload,
    // and each one whose normalization is an encoding is accepted.
    let spellings = b"0123456789ABCDEFGHJKMNPQRSTVWXYZabcdefghjkmnpqrstvwxyzOoIiLlUu-";

    for length in 0..=20usize {
        for round in 0..48u64 {
            let input: Vec<u8> = bytes(length, round * 1000 + length as u64)
                .into_iter()
                .map(|b| spellings[b as usize % spellings.len()])
                .collect();
            let normal = normalize(&input).expect("only symbols and hyphens");

            match try_decode(&input) {
                Ok(payload) => {
                    assert_eq!(payload, decode(&input));
                    assert_eq!(encode(&payload).as_bytes(), normal.as_slice());
                }
                Err(DecodeError::NonZeroPadding { position, byte })
                | Err(DecodeError::ExcessSymbol { position, byte }) => {
                    assert_eq!(input[position], byte);
                    assert!(input[position + 1..].iter().all(|&b| b == b'-'));
                    assert_ne!(encode(&decode(&input)).as_bytes(), normal.as_slice());
                }
                Err(other) => panic!("unexpected error {other:?}"),
            }
        }
    }
}

#[test]
fn law_strict_rejection_names_the_first_rejected_byte() {
    assert_eq!(
        try_decode(b"D1-M@!G"),
        Err(DecodeError::InvalidByte {
            position: 4,
            byte: b'@'
        })
    );
    assert_eq!(
        try_decode(b"*"),
        Err(DecodeError::InvalidByte {
            position: 0,
            byte: b'*'
        })
    );
}

#[test]
fn law_hyphens_are_insignificant_everywhere() {
    let payload = bytes(7, 0xABCD);
    let encoded = encode(&payload).into_bytes();

    for position in 0..=encoded.len() {
        let mut spaced = encoded.clone();
        spaced.insert(position, b'-');

        assert_eq!(decode(&spaced), payload);
        assert_eq!(try_decode(&spaced), Ok(payload.clone()));
    }

    // A hyphen changes nothing for a lenient decoding of a non-canonical
    // input either.
    assert_eq!(decode(b"2-9"), decode(b"29"));
}

#[test]
fn law_prefix_of_an_encoding_decodes_to_a_prefix_of_the_payload() {
    let payload = bytes(23, 0x1357);
    let encoded = encode(&payload).into_bytes();

    for k in 0..=encoded.len() {
        assert_eq!(decode(&encoded[..k]), payload[..decoded_len(k)], "k={k}");
    }
}

#[test]
fn law_sized_round_trip_on_payloads() {
    let payload = bytes(9, 0x2468);
    let encoded: [u8; 20] = sized_encode(&payload);
    let decoded: [u8; 9] = sized_decode(&encoded);

    assert_eq!(&encoded[..15], encode(&payload).as_bytes());
    assert!(encoded[15..].iter().all(|&b| b == b'0'));
    assert_eq!(decoded.as_slice(), payload.as_slice());
}

#[test]
fn law_check_value_ignores_leading_zeros() {
    let payload = bytes(6, 0x4242);
    let mut padded = vec![0u8; 5];
    padded.extend_from_slice(&payload);

    assert_eq!(check_digit(&padded), check_digit(&payload));
    assert_eq!(check_digit(&[0, 0, 0x12]), 18);
}

#[test]
fn law_check_symbol_reads_back_for_every_digit() {
    for byte in 0..=255u8 {
        let digit = check_digit(&[byte]);

        assert!(digit < 37);
        assert_eq!(u32::from(digit), u32::from(byte) % 37);
        assert_eq!(check_symbol(&[byte]), CHECK_ALPHABET[digit as usize]);
        assert_eq!(CHECK_DECODE_MAP[check_symbol(&[byte]) as usize], digit);
        assert!(check_symbol(&[byte]).is_ascii());
    }
}

#[test]
fn law_check_round_trip_with_trailing_skips() {
    for length in 0..=12 {
        let payload = bytes(length, 0x99 + length as u64);
        let checked = encode_with_check(&payload);

        assert_eq!(decode_with_check(checked.as_bytes()), Ok(payload.clone()));

        let mut padded = checked.into_bytes();
        padded.extend_from_slice(b" \t\r\n\x0c-");

        assert_eq!(decode_with_check(&padded), Ok(payload));
    }
}

#[test]
fn law_check_detects_every_meaningful_substitution() {
    for length in 0..=6 {
        let payload = bytes(length, 0xC0DE + length as u64);
        let checked = encode_with_check(&payload).into_bytes();
        let body = checked.len() - 1;

        for position in 0..checked.len() {
            for byte in 0..=255u8 {
                if is_skip(byte) {
                    continue;
                }

                let same = if position < body {
                    DECODE_MAP[byte as usize] == DECODE_MAP[checked[position] as usize]
                } else {
                    CHECK_DECODE_MAP[byte as usize] == CHECK_DECODE_MAP[checked[position] as usize]
                };

                if same {
                    continue;
                }

                let mut mutated = checked.clone();
                mutated[position] = byte;

                assert!(
                    decode_with_check(&mutated).is_err(),
                    "substituting {byte:#04x} at {position} of {checked:?} went undetected"
                );
            }
        }
    }
}

#[test]
fn law_check_detects_adjacent_transpositions() {
    for length in 0..=10 {
        let payload = bytes(length, 0xFACE + length as u64);
        let checked = encode_with_check(&payload).into_bytes();

        for position in 0..checked.len().saturating_sub(1) {
            if checked[position] == checked[position + 1] {
                continue;
            }

            if position + 2 == checked.len() && checked[position + 1] == b'U' {
                continue;
            }

            let mut mutated = checked.clone();
            mutated.swap(position, position + 1);

            assert!(
                decode_with_check(&mutated).is_err(),
                "transposing at {position} of {checked:?} went undetected"
            );
        }
    }
}

#[test]
fn moving_a_u_check_symbol_into_the_body_can_go_undetected() {
    // The check symbol `U` (36) reads as `V` (27) inside the body, so this
    // transposition of the last two symbols yields another valid string.
    let payload = [0x00, 0x00, 0x00, 0x11, 0x0d];
    let checked = encode_with_check(&payload);

    assert_eq!(checked, "0000048DU");
    assert_eq!(
        decode_with_check(b"0000048UD"),
        Ok(vec![0x00, 0x00, 0x00, 0x11, 0x1b])
    );
}

#[test]
fn every_error_variant_has_an_input_that_produces_it() {
    let mut small = [0u8; 1];

    assert_eq!(
        encode_to_slice(b"hi", &mut small),
        Err(CapacityError {
            required: 4,
            available: 1
        })
    );
    assert_eq!(
        decode_to_slice(b"D1MG", &mut small),
        Err(CapacityError {
            required: 2,
            available: 1
        })
    );
    assert_eq!(
        try_decode_to_slice(b"D1MG", &mut small),
        Err(DecodeError::Capacity(CapacityError {
            required: 2,
            available: 1
        }))
    );
    assert!(matches!(try_decode(b"D@"), Err(DecodeError::InvalidByte { .. })));
    assert!(matches!(try_decode(b"29"), Err(DecodeError::NonZeroPadding { .. })));
    assert!(matches!(try_decode(b"280"), Err(DecodeError::ExcessSymbol { .. })));
    assert_eq!(decode_with_check(b" \n"), Err(CheckError::Missing));
    assert_eq!(decode_with_check(b"28!"), Err(CheckError::InvalidSymbol));
    assert!(matches!(decode_with_check(b"2@J"), Err(CheckError::Body(_))));
    assert_eq!(
        decode_with_check(b"28K"),
        Err(CheckError::Mismatch {
            expected: 18,
            actual: 19
        })
    );
}

#[test]
fn messages_spell_numbers_and_bytes_exactly() {
    assert_eq!(
        CapacityError {
            required: 1234567,
            available: 0
        }
        .message(),
        "output slice length 0 is below the required length 1234567"
    );
    assert_eq!(
        DecodeError::InvalidByte {
            position: 10,
            byte: 0xff
        }
        .message(),
        "invalid byte 0xff at position 10"
    );
    assert_eq!(
        DecodeError::ExcessSymbol {
            position: 99,
            byte: 0x0a
        }
        .message(),
        "byte 0x0a at position 99 contributes no bits to the payload"
    );
    assert_eq!(
        CheckError::Mismatch {
            expected: 36,
            actual: 0
        }
        .message(),
        "check digit mismatch: payload requires 36, input supplied 0"
    );
    assert_eq!(
        CheckError::Body(DecodeError::NonZeroPadding {
            position: 1,
            byte: b'9'
        })
        .message(),
        "invalid body: byte 0x39 at position 1 sets bits that decoding discards"
    );
}

#[test]
fn encode_into_hands_the_sink_the_whole_encoding() {
    for length in [0usize, 1, 4, 5, 6, 10, 13] {
        let payload = bytes(length, 0x31 + length as u64);
        let mut sink = String::new();

        encode_into(&payload, &mut sink).expect("a String sink never fails");

        assert_eq!(sink, encode(&payload));
    }
}

/// The properties of the payload fuzz target, for one payload.
fn check_payload(payload: &[u8]) {
    let encoded = encode(payload);

    assert_eq!(encoded.len(), encoded_len(payload.len()));

    let mut sink = String::new();
    encode_into(payload, &mut sink).expect("a String sink never fails");
    assert_eq!(sink, encoded);

    let mut buffer = vec![0u8; encoded.len()];
    assert_eq!(encode_to_slice(payload, &mut buffer), Ok(encoded.len()));
    assert_eq!(buffer, encoded.as_bytes());

    if let Some(available) = encoded.len().checked_sub(1) {
        assert_eq!(
            encode_to_slice(payload, &mut buffer[..available]),
            Err(CapacityError {
                required: encoded.len(),
                available,
            })
        );
    }

    let fixed: [u8; 64] = sized_encode(payload);
    let shared = fixed.len().min(encoded.len());
    assert_eq!(&fixed[..shared], &encoded.as_bytes()[..shared]);

    assert_eq!(decode(encoded.as_bytes()), payload);
    assert_eq!(try_decode(encoded.as_bytes()).as_deref(), Ok(payload));

    let mut decoded = vec![0u8; payload.len()];
    assert_eq!(decode_to_slice(encoded.as_bytes(), &mut decoded), Ok(payload.len()));
    assert_eq!(decoded, payload);
    assert_eq!(decoded_len(encoded.len()), payload.len());

    decoded.fill(0);
    assert_eq!(
        try_decode_to_slice(encoded.as_bytes(), &mut decoded),
        Ok(payload.len())
    );
    assert_eq!(decoded, payload);

    let fixed: [u8; 64] = sized_decode(encoded.as_bytes());
    let shared = fixed.len().min(payload.len());
    assert_eq!(&fixed[..shared], &payload[..shared]);

    let mut hyphenated = Vec::with_capacity(encoded.len() * 2 + 1);
    for (index, byte) in encoded.bytes().enumerate() {
        if index % 3 == 0 {
            hyphenated.push(b'-');
        }
        hyphenated.push(byte);
    }
    hyphenated.push(b'-');

    assert_eq!(decode(&hyphenated), payload);
    assert_eq!(try_decode(&hyphenated).as_deref(), Ok(payload));

    let checked = encode_with_check(payload);
    assert_eq!(checked.len(), encoded.len() + 1);
    assert!(checked.starts_with(encoded.as_str()));
    assert_eq!(checked.as_bytes()[encoded.len()], check_symbol(payload));
    assert!(check_digit(payload) < 37);
    assert_eq!(decode_with_check(checked.as_bytes()).as_deref(), Ok(payload));

    let mut padded = checked.into_bytes();
    padded.extend_from_slice(b" \r\n\t-");
    assert_eq!(decode_with_check(&padded).as_deref(), Ok(payload));
}

#[test]
fn payload_properties_hold_for_pseudo_random_payloads() {
    for length in 0..=40 {
        for round in 0..4u64 {
            check_payload(&bytes(length, round * 7919 + length as u64));
        }
    }
}

/// The properties of the arbitrary-input fuzz target, for one input.
fn check_arbitrary(data: &[u8]) {
    let lenient = decode(data);
    let strict = try_decode(data);

    let _: [u8; 33] = sized_decode(data);
    let _: [u8; 33] = sized_encode(data);
    let _ = check_digit(data);
    let _ = check_symbol(data);
    let _ = decode_with_check(data);

    let mut buffer = [0u8; 37];
    let _ = decode_to_slice(data, &mut buffer);
    let _ = try_decode_to_slice(data, &mut buffer);
    let _ = encode_to_slice(data, &mut buffer);
    let _ = encode_into(data, &mut String::new());

    match &strict {
        Ok(payload) => {
            assert_eq!(*payload, lenient);
            assert_eq!(
                encode(payload).as_bytes(),
                normalize(data).expect("accepted input").as_slice()
            );
        }
        Err(DecodeError::InvalidByte { position, byte }) => {
            assert_eq!(data[*position], *byte);
            assert!(*byte != b'-' && DECODE_MAP[*byte as usize] == INVALID);
        }
        Err(DecodeError::NonZeroPadding { position, byte })
        | Err(DecodeError::ExcessSymbol { position, byte }) => {
            assert_eq!(data[*position], *byte);
            assert_ne!(
                normalize(data).as_deref(),
                Some(encode(&lenient).as_bytes()),
                "rejected a canonical input"
            );
        }
        Err(error) => panic!("try_decode reported an unexpected error: {error:?}"),
    }

    let mut output = vec![0u8; lenient.len()];
    assert_eq!(
        try_decode_to_slice(data, &mut output).map(|written| written == lenient.len()),
        strict.as_ref().map(|_| true).map_err(|error| *error),
    );
    if strict.is_ok() {
        assert_eq!(output, lenient);
    }

    output.fill(0);
    assert_eq!(decode_to_slice(data, &mut output), Ok(lenient.len()));
    assert_eq!(output, lenient);
    assert!(decoded_len(data.len()) >= lenient.len());

    if let Some(available) = lenient.len().checked_sub(1) {
        assert_eq!(
            decode_to_slice(data, &mut output[..available]),
            Err(CapacityError {
                required: lenient.len(),
                available,
            })
        );
    }
}

#[test]
fn arbitrary_input_properties_hold_for_pseudo_random_inputs() {
    let pool = b"0123456789ABCDEFGHJKMNPQRSTVWXYZoOiIlLuU- \n@*~$=";

    for length in 0..=24 {
        for round in 0..16u64 {
            let raw = bytes(length, round * 104_729 + length as u64);
            check_arbitrary(&raw);

            let spelled: Vec<u8> = raw.iter().map(|&b| pool[b as usize % pool.len()]).collect();
            check_arbitrary(&spelled);
        }
    }
}

#[test]
fn law_prefix_keeps_leading_bits_of_the_next_byte() {
    let payload = bytes(11, 0x8642);
    let encoded = encode(&payload).into_bytes();

    for k in 0..encoded.len() {
        let m = decoded_len(k);

        if m >= payload.len() {
            continue;
        }

        let r = (5 * k) % 8;
        let decoded: [u8; 12] = sized_decode(&encoded[..k]);

        assert_eq!(&decoded[..m], &payload[..m], "k={k}");

        if r > 0 {
            let mask = 0xffu8 << (8 - r);

            assert_eq!(decoded[m], payload[m] & mask, "k={k}");
        }

        assert!(decoded[m + usize::from(r > 0)..].iter().all(|&b| b == 0), "k={k}");
    }
}

struct RefusingSink;

impl core::fmt::Write for RefusingSink {
    fn write_str(&mut self, _text: &str) -> core::fmt::Result {
        Err(core::fmt::Error)
    }
}

#[test]
fn encode_into_an_empty_input_never_touches_the_sink() {
    assert_eq!(encode_into(b"", RefusingSink), Ok(()));
    assert_eq!(encode_into(b"f", RefusingSink), Err(core::fmt::Error));
}

#[test]
fn encoded_pieces_are_the_blocks_then_the_tail_symbols() {
    assert_eq!(encoded_pieces(b""), Vec::<Vec<u8>>::new());
    assert_eq!(
        encoded_pieces(b"hi"),
        vec![b"D".to_vec(), b"1".to_vec(), b"M".to_vec(), b"G".to_vec()]
    );
    assert_eq!(
        encoded_pieces(&[0xff; 6]),
        vec![b"ZZZZZZZZ".to_vec(), b"Z".to_vec(), b"W".to_vec()]
    );

    for length in 0..=23 {
        let payload = bytes(length, 0x5EED + length as u64);
        let pieces = encoded_pieces(&payload);

        assert_eq!(pieces.len(), length / 5 + (encoded_len(length) - 8 * (length / 5)));
        for (k, piece) in pieces.iter().enumerate() {
            assert_eq!(piece.len(), if k < length / 5 { 8 } else { 1 });
        }
        assert_eq!(pieces.concat(), encode(&payload).into_bytes());
    }
}

/// A sink that records each call it receives and fails from the given
/// call on.
struct RecordingSink {
    calls: Vec<String>,
    fail_from: usize,
}

impl core::fmt::Write for RecordingSink {
    fn write_str(&mut self, text: &str) -> core::fmt::Result {
        if self.calls.len() >= self.fail_from {
            return Err(core::fmt::Error);
        }
        self.calls.push(text.to_string());
        Ok(())
    }
}

#[test]
fn encode_into_hands_the_sink_the_pieces_in_order_and_stops_at_an_error() {
    let payload = bytes(13, 0xC0FFEE);
    let pieces: Vec<String> = encoded_pieces(&payload)
        .into_iter()
        .map(|piece| String::from_utf8(piece).expect("pieces are ASCII"))
        .collect();

    let mut sink = RecordingSink { calls: Vec::new(), fail_from: usize::MAX };
    assert_eq!(encode_into(&payload, &mut sink), Ok(()));
    assert_eq!(sink.calls, pieces);

    for fail_from in 0..pieces.len() {
        let mut sink = RecordingSink { calls: Vec::new(), fail_from };
        assert_eq!(encode_into(&payload, &mut sink), Err(core::fmt::Error));
        assert_eq!(sink.calls, pieces[..fail_from].to_vec());
    }
}

#[test]
fn law_sized_encoding_ignores_suffix_instances() {
    let payload = bytes(7, 0xAB);
    let expected: [u8; 11] = sized_encode(&payload);

    for suffix_length in 0..8 {
        let mut longer = payload.clone();
        longer.extend(bytes(suffix_length, 0xCD + suffix_length as u64));
        let encoded: [u8; 11] = sized_encode(&longer);
        assert_eq!(encoded, expected);
    }
}

#[test]
fn law_checked_hyphens_are_insignificant_instances() {
    for length in 0..=7 {
        let payload = bytes(length, 0xD00D + length as u64);
        let checked = encode_with_check(&payload).into_bytes();

        for position in 0..=checked.len() {
            let mut spaced = checked.clone();
            spaced.insert(position, b'-');
            assert_eq!(decode_with_check(&spaced), Ok(payload.clone()));
        }
    }
}

#[test]
fn moving_a_u_check_symbol_into_the_body_never_gives_the_payload_back() {
    let payload = [0x00, 0x00, 0x00, 0x11, 0x0d];
    let mut swapped = encode_with_check(&payload).into_bytes();
    let last = swapped.len() - 1;
    swapped.swap(last - 1, last);

    assert_ne!(decode_with_check(&swapped), Ok(payload.to_vec()));
}

#[test]
fn law_decoding_ignores_case_and_non_symbols_instances() {
    for length in 0..=12 {
        let payload = bytes(length, 0xCA5E + length as u64);
        let encoded = encode(&payload);

        assert_eq!(decode(encoded.to_ascii_lowercase().as_bytes()), payload);

        for junk in [b' ', b'-', b'@', 0x00, 0xff, b'\n', b'*'] {
            for position in 0..=encoded.len() {
                let mut polluted = encoded.clone().into_bytes();
                polluted.insert(position, junk);
                assert_eq!(decode(&polluted), payload);
            }
        }
    }
}

#[test]
fn law_accepted_input_is_its_encoding_instances() {
    // Accepted spellings re-encode to themselves without hyphens,
    // uppercased, and with aliases resolved.
    for (input, spelled) in [
        (&b"d1-mg"[..], &b"D1MG"[..]),
        (&b"CSQPYRK1E8"[..], &b"CSQPYRK1E8"[..]),
        (&b"csqpyrkie8"[..], &b"CSQPYRK1E8"[..]),
        (&b"-"[..], &b""[..]),
    ] {
        let payload = try_decode(input).expect("a canonical spelling is accepted");
        assert_eq!(encode(&payload).as_bytes(), spelled);
    }
}
