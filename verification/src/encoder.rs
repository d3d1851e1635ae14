use vstd::prelude::*;

use crate::alphabet::{encode_hashmap, spec_symbol_of};
use crate::bits::{
    bits_of_byte, bits_of_bytes, is_bits, lemma_bits_of_bytes_props, lemma_bits_of_bytes_push,
    lemma_sextets_append, lemma_sextets_len, lemma_zero_pad6_props, sextet_val, sextets_of_bits,
    zero_pad6,
};

verus! {

/// The symbols mapped from a sequence of sextet values, in order.
pub open spec fn symbols_of_sextets(vals: Seq<u8>) -> Seq<u8> {
    vals.map_values(|v: u8| spec_symbol_of(v))
}

/// The symbols of an encoding before `=` padding: the input's bit stream,
/// zero-padded to whole sextets, one symbol per sextet.
pub open spec fn spec_symbols(input: Seq<u8>) -> Seq<u8> {
    symbols_of_sextets(sextets_of_bits(zero_pad6(bits_of_bytes(input))))
}

/// How many `=` bytes pad a symbol count to a multiple of 4.
pub open spec fn pad4_len(n: nat) -> nat {
    ((4 - n % 4) % 4) as nat
}

/// The full encoding of a byte sequence: its symbols followed by `=` padding
/// up to a multiple of 4.
pub open spec fn spec_encode(input: Seq<u8>) -> Seq<u8> {
    spec_symbols(input) + Seq::new(pad4_len(spec_symbols(input).len()), |i: int| 61u8)
}

/// The bit stream of the input buffer: each byte's 8 bits, most-significant
/// first, one bit value per output entry.
pub fn encode_stringify(input: Vec<u8>) -> (bits: Vec<u8>)
    ensures
        bits@ == bits_of_bytes(input@),
        is_bits(bits@),
        bits@.len() == 8 * input@.len(),
{
    let mut bits: Vec<u8> = Vec::new();
    let mut i: usize = 0;
    while i < input.len()
        invariant
            i <= input@.len(),
            bits@ == bits_of_bytes(input@.take(i as int)),
        decreases input@.len() - i,
    {
        let b = input[i];
        bits.push((b >> 7) & 1);
        bits.push((b >> 6) & 1);
        bits.push((b >> 5) & 1);
        bits.push((b >> 4) & 1);
        bits.push((b >> 3) & 1);
        bits.push((b >> 2) & 1);
        bits.push((b >> 1) & 1);
        bits.push(b & 1);
        proof {
            assert(input@.take(i as int + 1) =~= input@.take(i as int).push(b));
            lemma_bits_of_bytes_push(input@.take(i as int), b);
            assert(bits@ =~= bits_of_bytes(input@.take(i as int)) + bits_of_byte(b));
        }
        i = i + 1;
    }
    proof {
        assert(input@.take(input@.len() as int) =~= input@);
        lemma_bits_of_bytes_props(input@);
    }
    bits
}

/// Encodes a byte sequence: its bit stream, zero-padded to whole sextets, is
/// mapped sextet by sextet through the alphabet, and the symbols are padded
/// with `=` to a multiple of 4. Encoding never fails, whatever the input.
pub fn encode(input: Vec<u8>) -> (text: Vec<u8>)
    ensures
        text@ == spec_encode(input@),
{
    let ghost input_view = input@;
    let mut bits = encode_stringify(input);
    let ghost raw_bits = bits@;

    // value padding: zero bits up to a whole number of sextets
    let rem: usize = bits.len() % 6;
    if rem != 0 {
        let needed: usize = 6 - rem;
        let mut j: usize = 0;
        while j < needed
            invariant
                j <= needed,
                bits@ == raw_bits + Seq::new(j as nat, |k: int| 0u8),
            decreases needed - j,
        {
            bits.push(0);
            proof {
                assert(bits@ =~= raw_bits + Seq::new(j as nat + 1, |k: int| 0u8));
            }
            j = j + 1;
        }
    }
    proof {
        assert(bits@ =~= zero_pad6(raw_bits));
        lemma_bits_of_bytes_props(input_view);
        lemma_zero_pad6_props(raw_bits);
    }

    // one symbol per sextet
    let table = encode_hashmap();
    let mut translation: Vec<u8> = Vec::new();
    let blen: usize = bits.len();
    let count: usize = blen / 6;
    proof {
        assert(6 * (bits@.len() / 6) == bits@.len());
    }
    let mut i: usize = 0;
    while i < count
        invariant
            i <= count,
            count == bits@.len() / 6,
            bits@.len() % 6 == 0,
            bits@.len() == 6 * count,
            bits@.len() <= usize::MAX,
            is_bits(bits@),
            table@.len() == 64,
            forall|v: int| 0 <= v < 64 ==> table@[v] == spec_symbol_of(v as u8),
            translation@ == symbols_of_sextets(sextets_of_bits(bits@.take(6 * i as int))),
        decreases count - i,
    {
        let base: usize = i * 6;
        let s0 = bits[base];
        let s1 = bits[base + 1];
        let s2 = bits[base + 2];
        let s3 = bits[base + 3];
        let s4 = bits[base + 4];
        let s5 = bits[base + 5];
        let v: u8 = s0 * 32 + s1 * 16 + s2 * 8 + s3 * 4 + s4 * 2 + s5;
        proof {
            let g = bits@.subrange(base as int, base as int + 6);
            assert(g[0] == s0 && g[1] == s1 && g[2] == s2 && g[3] == s3 && g[4] == s4 && g[5]
                == s5);
            assert(v == sextet_val(g));
            lemma_sextets_append(bits@.take(6 * i as int), g);
            assert(bits@.take(6 * (i as int + 1)) =~= bits@.take(6 * i as int) + g);
        }
        let sym = table[v as usize];
        translation.push(sym);
        proof {
            assert(translation@ =~= symbols_of_sextets(
                sextets_of_bits(bits@.take(6 * (i as int + 1))),
            ));
        }
        i = i + 1;
    }
    proof {
        assert(bits@.take(6 * count as int) =~= bits@);
    }
    let ghost syms = translation@;

    // symbol padding: '=' bytes up to a multiple of 4
    let rem4: usize = translation.len() % 4;
    if rem4 != 0 {
        let needed4: usize = 4 - rem4;
        let mut j: usize = 0;
        while j < needed4
            invariant
                j <= needed4,
                translation@ == syms + Seq::new(j as nat, |k: int| 61u8),
            decreases needed4 - j,
        {
            translation.push(61);
            proof {
                assert(translation@ =~= syms + Seq::new(j as nat + 1, |k: int| 61u8));
            }
            j = j + 1;
        }
    }
    proof {
        assert(translation@ =~= spec_encode(input_view));
    }
    translation
}

/// The whole encode pass over an in-memory buffer: byte sequence in, encoded
/// text out.
pub fn encode_routine(input: Vec<u8>) -> (text: Vec<u8>)
    ensures
        text@ == spec_encode(input@),
{
    encode(input)
}

/// The length invariant of the encoding: for every byte sequence, the encoded
/// text's length is a multiple of 4.
pub proof fn lemma_encode_length(input: Seq<u8>)
    ensures
        spec_encode(input).len() % 4 == 0,
{
    let n = spec_symbols(input).len();
    assert(spec_encode(input).len() == n + pad4_len(n));
    assert((n + pad4_len(n)) % 4 == 0) by (nonlinear_arith);
}

/// The padding count: the `=` bytes appended to the symbols number
/// `(4 - ceil(8·len/6) % 4) % 4`, with `ceil(8·len/6)` written as integer
/// division `(8·len + 5) / 6`.
pub proof fn lemma_padding_count(input: Seq<u8>)
    ensures
        spec_encode(input).len() - spec_symbols(input).len() == (4 - (((8 * input.len() + 5) / 6)
            % 4)) % 4,
{
    lemma_bits_of_bytes_props(input);
    lemma_zero_pad6_props(bits_of_bytes(input));
    let padded = zero_pad6(bits_of_bytes(input));
    lemma_sextets_len(padded);
    let m = 8 * input.len();
    assert(padded.len() == m + (6 - m % 6) % 6);
    assert((m + (6 - m % 6) % 6) / 6 == (m + 5) / 6) by (nonlinear_arith);
    assert(spec_symbols(input).len() == (m + 5) / 6);
    assert(spec_encode(input).len() - spec_symbols(input).len() == pad4_len(((m + 5) / 6) as nat));
}

} // verus!
