use vstd::prelude::*;

use crate::errors::DecodeError;

verus! {

/// The printable symbol for a 6-bit value, per the standard table:
/// 0..=25 map to `A`..=`Z`, 26..=51 to `a`..=`z`, 52..=61 to `0`..=`9`,
/// 62 to `+` and 63 to `/`.
pub open spec fn spec_symbol_of(v: u8) -> u8
    recommends
        v < 64,
{
    if v < 26 {
        (65 + v) as u8
    } else if v < 52 {
        (97 + v - 26) as u8
    } else if v < 62 {
        (48 + v - 52) as u8
    } else if v == 62 {
        43
    } else {
        47
    }
}

/// Whether a byte is one of the 64 alphabet symbols.
pub open spec fn spec_is_symbol(c: u8) -> bool {
    (65 <= c <= 90) || (97 <= c <= 122) || (48 <= c <= 57) || c == 43 || c == 47
}

/// The 6-bit value of an alphabet symbol; 255 is the sentinel for a byte
/// outside the alphabet.
pub open spec fn spec_value_of(c: u8) -> u8 {
    if 65 <= c <= 90 {
        (c - 65) as u8
    } else if 97 <= c <= 122 {
        (c - 97 + 26) as u8
    } else if 48 <= c <= 57 {
        (c - 48 + 52) as u8
    } else if c == 43 {
        62
    } else if c == 47 {
        63
    } else {
        255
    }
}

/// Total mapping from a sextet value to its printable symbol.
pub fn symbol_for(v: u8) -> (s: u8)
    requires
        v < 64,
    ensures
        s == spec_symbol_of(v),
{
    if v < 26 {
        65 + v
    } else if v < 52 {
        97 + v - 26
    } else if v < 62 {
        48 + v - 52
    } else if v == 62 {
        43
    } else {
        47
    }
}

/// Partial mapping from a symbol to its sextet value; a byte outside the
/// alphabet is reported as `InvalidCharacter`.
pub fn value_for(c: u8) -> (r: Result<u8, DecodeError>)
    ensures
        spec_is_symbol(c) ==> r == Ok::<u8, DecodeError>(spec_value_of(c)),
        !spec_is_symbol(c) ==> r == Err::<u8, DecodeError>(
            DecodeError::InvalidCharacter { found: c },
        ),
{
    if 65 <= c && c <= 90 {
        Ok(c - 65)
    } else if 97 <= c && c <= 122 {
        Ok(c - 97 + 26)
    } else if 48 <= c && c <= 57 {
        Ok(c - 48 + 52)
    } else if c == 43 {
        Ok(62)
    } else if c == 47 {
        Ok(63)
    } else {
        Err(DecodeError::InvalidCharacter { found: c })
    }
}

/// The value-to-symbol table: 64 entries, entry `v` holding the symbol for `v`.
pub fn encode_hashmap() -> (t: Vec<u8>)
    ensures
        t@.len() == 64,
        forall|v: int| 0 <= v < 64 ==> t@[v] == spec_symbol_of(v as u8),
{
    let mut t: Vec<u8> = Vec::new();
    let mut v: u8 = 0;
    while v < 64
        invariant
            v <= 64,
            t@.len() == v as int,
            forall|j: int| 0 <= j < v as int ==> t@[j] == spec_symbol_of(j as u8),
        decreases 64 - v,
    {
        t.push(symbol_for(v));
        v = v + 1;
    }
    t
}

/// The symbol-to-value table: 256 entries indexed by byte, holding the byte's
/// sextet value, with 255 as the sentinel for bytes outside the alphabet.
pub fn decode_hashmap() -> (t: Vec<u8>)
    ensures
        t@.len() == 256,
        forall|c: int| 0 <= c < 256 ==> t@[c] == spec_value_of(c as u8),
{
    let mut t: Vec<u8> = Vec::new();
    let mut c: usize = 0;
    while c < 256
        invariant
            c <= 256,
            t@.len() == c as int,
            forall|j: int| 0 <= j < c as int ==> t@[j] == spec_value_of(j as u8),
        decreases 256 - c,
    {
        match value_for(c as u8) {
            Ok(v) => t.push(v),
            Err(_) => t.push(255),
        }
        c = c + 1;
    }
    t
}

/// The membership table: 256 entries indexed by byte, true exactly on the 64
/// alphabet symbols.
pub fn valid_chars_hashmap() -> (t: Vec<bool>)
    ensures
        t@.len() == 256,
        forall|c: int| 0 <= c < 256 ==> t@[c] == spec_is_symbol(c as u8),
{
    let mut t: Vec<bool> = Vec::new();
    let mut c: usize = 0;
    while c < 256
        invariant
            c <= 256,
            t@.len() == c as int,
            forall|j: int| 0 <= j < c as int ==> t@[j] == spec_is_symbol(j as u8),
        decreases 256 - c,
    {
        let is_sym = match value_for(c as u8) {
            Ok(_) => true,
            Err(_) => false,
        };
        t.push(is_sym);
        c = c + 1;
    }
    t
}

/// The alphabet mapping is a bijection between the values 0..=63 and the 64
/// symbols: the two directions invert each other, every symbol image is a
/// symbol, and every symbol's value lies below 64.
pub proof fn lemma_alphabet_bijection()
    ensures
        forall|v: u8| v < 64 ==> #[trigger] spec_value_of(spec_symbol_of(v)) == v,
        forall|c: u8| spec_is_symbol(c) ==> #[trigger] spec_symbol_of(spec_value_of(c)) == c,
        forall|v: u8| v < 64 ==> spec_is_symbol(#[trigger] spec_symbol_of(v)),
        forall|c: u8| spec_is_symbol(c) ==> #[trigger] spec_value_of(c) < 64,
{
}

} // verus!
