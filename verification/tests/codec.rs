use keycode::base32::{decode, encode, Base32DecodeError};

#[test]
fn encode_fixed_vector_len_1() {
    assert_eq!(encode(&[0xAB]), "NC");
}

#[test]
fn encode_fixed_vector_len_3() {
    assert_eq!(encode(&[0x01, 0x02, 0x03]), "04106");
}

#[test]
fn encode_fixed_vector_len_5() {
    assert_eq!(encode(&[0xF8, 0x3E, 0x74, 0x22, 0x10]), "Z0Z788GG");
}

#[test]
fn encode_empty() {
    assert_eq!(encode(&[]), "");
}

#[test]
fn decode_empty() {
    assert_eq!(decode("").unwrap(), Vec::<u8>::new());
}

#[test]
fn decode_fixed_vectors() {
    assert_eq!(decode("NC").unwrap(), vec![0xAB]);
    assert_eq!(decode("04106").unwrap(), vec![0x01, 0x02, 0x03]);
    assert_eq!(decode("Z0Z788GG").unwrap(), vec![0xF8, 0x3E, 0x74, 0x22, 0x10]);
}

#[test]
fn round_trip_all_short_lengths() {
    let pattern: Vec<u8> = vec![0x00, 0xFF, 0x5A, 0xA5, 0x13, 0x37, 0x80, 0x01, 0xFE, 0x42, 0x99];
    for n in 0..=pattern.len() {
        let input = &pattern[..n];
        let text = encode(input);
        assert_eq!(text.len(), (n * 8 + 4) / 5, "length for {n} input bytes");
        assert_eq!(decode(&text).unwrap(), input, "round trip for {n} input bytes");
    }
}

#[test]
fn encode_emits_only_alphabet_characters() {
    let alphabet = "0123456789ABCDEFGHJKMNPQRSTVWXYZ";
    let input: Vec<u8> = (0u16..=255).map(|b| b as u8).collect();
    for c in encode(&input).chars() {
        assert!(alphabet.contains(c), "character {c} outside the alphabet");
    }
}

#[test]
fn decode_folds_case() {
    assert_eq!(decode("nc").unwrap(), vec![0xAB]);
    assert_eq!(decode("z0z788gg").unwrap(), vec![0xF8, 0x3E, 0x74, 0x22, 0x10]);
}

#[test]
fn decode_accepts_ambiguity_aliases() {
    // I and L read as 1, O reads as 0, in either case.
    assert_eq!(decode("IL").unwrap(), decode("11").unwrap());
    assert_eq!(decode("il").unwrap(), decode("11").unwrap());
    assert_eq!(decode("O0").unwrap(), decode("00").unwrap());
    assert_eq!(decode("o0").unwrap(), decode("00").unwrap());
}

#[test]
fn decode_rejects_u_both_cases() {
    assert_eq!(decode("U").unwrap_err(), Base32DecodeError::InvalidChar('U'));
    assert_eq!(decode("u").unwrap_err(), Base32DecodeError::InvalidChar('u'));
}

#[test]
fn decode_rejects_non_alphanumerics() {
    assert_eq!(decode("AB!").unwrap_err(), Base32DecodeError::InvalidChar('!'));
    assert_eq!(decode(" ").unwrap_err(), Base32DecodeError::InvalidChar(' '));
    assert_eq!(decode("A-B").unwrap_err(), Base32DecodeError::InvalidChar('-'));
}

#[test]
fn decode_reports_first_invalid_character() {
    assert_eq!(decode("9U!").unwrap_err(), Base32DecodeError::InvalidChar('U'));
}

#[test]
fn decode_single_trailing_symbol_contributes_nothing() {
    // One leftover symbol carries no complete byte.
    assert_eq!(decode("Z").unwrap(), Vec::<u8>::new());
    assert_eq!(decode("Z0Z788GGZ").unwrap(), vec![0xF8, 0x3E, 0x74, 0x22, 0x10]);
}

#[test]
fn decode_any_legal_string_succeeds() {
    // No length or alignment validation beyond per-character legality.
    assert!(decode("A").is_ok());
    assert!(decode("AAA").is_ok());
    assert!(decode("AAAAAA").is_ok());
}
