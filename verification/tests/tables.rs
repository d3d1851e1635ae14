use rust64::alphabet::{
    decode_hashmap, encode_hashmap, symbol_for, valid_chars_hashmap, value_for,
};
use rust64::errors::DecodeError;

const ALPHABET: &[u8; 64] = b"ABCDEFGHIJKLMNOPQRSTUVWXYZabcdefghijklmnopqrstuvwxyz0123456789+/";

#[test]
fn encode_table_matches_standard_alphabet() {
    let t = encode_hashmap();
    assert_eq!(t.len(), 64);
    for v in 0..64usize {
        assert_eq!(t[v], ALPHABET[v]);
    }
}

#[test]
fn decode_table_inverts_encode_table() {
    let enc = encode_hashmap();
    let dec = decode_hashmap();
    assert_eq!(dec.len(), 256);
    for v in 0..64usize {
        assert_eq!(dec[enc[v] as usize] as usize, v);
    }
}

#[test]
fn decode_table_flags_foreign_bytes() {
    let dec = decode_hashmap();
    for c in 0..256usize {
        if !ALPHABET.contains(&(c as u8)) {
            assert_eq!(dec[c], 255);
        }
    }
}

#[test]
fn membership_table_matches_alphabet() {
    let t = valid_chars_hashmap();
    assert_eq!(t.len(), 256);
    for c in 0..256usize {
        assert_eq!(t[c], ALPHABET.contains(&(c as u8)));
    }
}

#[test]
fn symbol_for_edges() {
    assert_eq!(symbol_for(0), b'A');
    assert_eq!(symbol_for(25), b'Z');
    assert_eq!(symbol_for(26), b'a');
    assert_eq!(symbol_for(51), b'z');
    assert_eq!(symbol_for(52), b'0');
    assert_eq!(symbol_for(61), b'9');
    assert_eq!(symbol_for(62), b'+');
    assert_eq!(symbol_for(63), b'/');
}

#[test]
fn value_for_inverts_symbol_for() {
    for v in 0..64u8 {
        assert_eq!(value_for(symbol_for(v)), Ok(v));
    }
}

#[test]
fn value_for_rejects_foreign_bytes() {
    assert_eq!(
        value_for(b'='),
        Err(DecodeError::InvalidCharacter { found: b'=' })
    );
    assert_eq!(
        value_for(b'\n'),
        Err(DecodeError::InvalidCharacter { found: b'\n' })
    );
    assert_eq!(
        value_for(b'!'),
        Err(DecodeError::InvalidCharacter { found: b'!' })
    );
}
