use rust64::decoder::{decode, decode_routine};
use rust64::encoder::{encode, encode_routine, encode_stringify};
use rust64::errors::DecodeError;
use rust64::validator::validate;

#[test]
fn encode_empty_is_empty() {
    assert_eq!(encode_routine(vec![]), Vec::<u8>::new());
}

#[test]
fn encode_foo() {
    assert_eq!(encode_routine(vec![0x66, 0x6f, 0x6f]), b"Zm9v".to_vec());
}

#[test]
fn encode_single_byte_two_pads() {
    assert_eq!(encode_routine(vec![0x4d]), b"TQ==".to_vec());
}

#[test]
fn encode_two_bytes_one_pad() {
    assert_eq!(encode_routine(vec![0x4d, 0x61]), b"TWE=".to_vec());
}

#[test]
fn decode_single_byte() {
    assert_eq!(decode_routine(b"TQ==".to_vec()), Ok(vec![0x4d]));
}

#[test]
fn decode_foo() {
    assert_eq!(decode_routine(b"Zm9v".to_vec()), Ok(vec![0x66, 0x6f, 0x6f]));
}

#[test]
fn validate_strips_newline() {
    assert_eq!(validate(&b"Zm9v\n".to_vec()), Ok(b"Zm9v".to_vec()));
}

#[test]
fn validate_rejects_bad_length() {
    assert_eq!(
        validate(&b"Zm9".to_vec()),
        Err(DecodeError::LengthError { length: 3 })
    );
}

#[test]
fn validate_rejects_bad_character() {
    assert_eq!(
        validate(&b"Zm9!".to_vec()),
        Err(DecodeError::InvalidCharacter { found: b'!' })
    );
}

#[test]
fn validate_reports_first_bad_character() {
    assert_eq!(
        validate(&b"Z!m$".to_vec()),
        Err(DecodeError::InvalidCharacter { found: b'!' })
    );
}

#[test]
fn validate_is_idempotent_on_unpadded_output() {
    let cleaned = validate(&b"Zm9v\n".to_vec()).unwrap();
    assert_eq!(validate(&cleaned), Ok(cleaned));
}

#[test]
fn decode_tolerates_embedded_newlines() {
    assert_eq!(
        decode_routine(b"Zm\n9v\n".to_vec()),
        Ok(vec![0x66, 0x6f, 0x6f])
    );
}

#[test]
fn decode_routine_propagates_length_error() {
    assert_eq!(
        decode_routine(b"Zm9vZg=\n".to_vec()),
        Err(DecodeError::LengthError { length: 7 })
    );
}

#[test]
fn decode_routine_propagates_character_error() {
    assert_eq!(
        decode_routine(b"Zm9 ".to_vec()),
        Err(DecodeError::InvalidCharacter { found: b' ' })
    );
}

#[test]
fn round_trip_small_buffers() {
    let samples: Vec<Vec<u8>> = vec![
        vec![],
        vec![0],
        vec![255],
        vec![0, 0],
        vec![1, 2, 3],
        vec![0xde, 0xad, 0xbe, 0xef],
        b"hello, world".to_vec(),
        vec![10, 61, 65, 47, 43],
    ];
    for bytes in samples {
        let text = encode_routine(bytes.clone());
        assert_eq!(decode_routine(text), Ok(bytes));
    }
}

#[test]
fn round_trip_all_byte_values() {
    let bytes: Vec<u8> = (0..=255).collect();
    let text = encode_routine(bytes.clone());
    assert_eq!(decode_routine(text), Ok(bytes));
}

#[test]
fn encoded_length_is_multiple_of_four() {
    for n in 0..24usize {
        let bytes: Vec<u8> = (0..n as u8).collect();
        assert_eq!(encode_routine(bytes).len() % 4, 0);
    }
}

#[test]
fn padding_count_matches_formula() {
    for n in 0..24usize {
        let bytes: Vec<u8> = (0..n as u8).collect();
        let text = encode_routine(bytes);
        let pads = text.iter().filter(|&&c| c == b'=').count();
        let sextets = (8 * n + 5) / 6;
        assert_eq!(pads, (4 - sextets % 4) % 4);
    }
}

#[test]
fn encode_stringify_spells_out_bits() {
    assert_eq!(
        encode_stringify(vec![0x4d]),
        vec![0, 1, 0, 0, 1, 1, 0, 1]
    );
    assert_eq!(encode_stringify(vec![]), Vec::<u8>::new());
}

#[test]
fn encode_and_routine_agree() {
    let bytes = b"any carnal pleasure.".to_vec();
    assert_eq!(encode(bytes.clone()), encode_routine(bytes));
}

#[test]
fn decode_on_validated_symbols() {
    let cleaned = validate(&b"TQ==".to_vec()).unwrap();
    assert_eq!(cleaned, b"TQ".to_vec());
    assert_eq!(decode(&cleaned), vec![0x4d]);
}

#[test]
fn known_vectors() {
    assert_eq!(encode_routine(b"f".to_vec()), b"Zg==".to_vec());
    assert_eq!(encode_routine(b"fo".to_vec()), b"Zm8=".to_vec());
    assert_eq!(encode_routine(b"foo".to_vec()), b"Zm9v".to_vec());
    assert_eq!(encode_routine(b"foob".to_vec()), b"Zm9vYg==".to_vec());
    assert_eq!(encode_routine(b"fooba".to_vec()), b"Zm9vYmE=".to_vec());
    assert_eq!(encode_routine(b"foobar".to_vec()), b"Zm9vYmFy".to_vec());
}
