use vstd::prelude::*;

use crate::alphabet::{decode_hashmap, lemma_alphabet_bijection, spec_is_symbol, spec_value_of};
use crate::bits::{
    bits_of_bytes, bits_of_sextet, bits_of_sextets, is_bits, lemma_bits_of_bytes_props,
    lemma_bits_of_sextets_push, lemma_octets_append, lemma_octets_ignore_tail, lemma_regroup_octets,
    lemma_regroup_sextets, lemma_sextet_bit_bounds, lemma_sextets_bounded, lemma_zero_pad6_props,
    octet_val, octets_of_bits, sextets_of_bits, zero_pad6,
};
use crate::encoder::{lemma_encode_length, pad4_len, spec_encode, spec_symbols};
use crate::errors::DecodeError;
use crate::validator::{all_symbols, spec_validate, strip_byte, validate};
use crate::validator::{lemma_strip_absent, lemma_strip_all, lemma_strip_concat};

verus! {

/// The sextet values of a symbol sequence, in order.
pub open spec fn values_of_symbols(symbols: Seq<u8>) -> Seq<u8> {
    symbols.map_values(|c: u8| spec_value_of(c))
}

/// The bytes a validated symbol sequence decodes to: each symbol's 6-bit
/// value, the values' bits concatenated in order, grouped into octets, with
/// trailing bits short of a full octet dropped.
pub open spec fn spec_decode(symbols: Seq<u8>) -> Seq<u8> {
    octets_of_bits(bits_of_sextets(values_of_symbols(symbols)))
}

/// The whole decode pass: validation, then decoding of the cleaned symbols.
pub open spec fn spec_decode_routine(s: Seq<u8>) -> Result<Seq<u8>, DecodeError> {
    match spec_validate(s) {
        Ok(u) => Ok(spec_decode(u)),
        Err(e) => Err(e),
    }
}

/// Decodes a validated symbol sequence. Every symbol maps to its 6-bit
/// value; the concatenated bits are regrouped into whole octets, and the
/// zero bits of the encoder's value padding are dropped from the tail.
pub fn decode(symbols: &Vec<u8>) -> (bytes: Vec<u8>)
    requires
        all_symbols(symbols@),
    ensures
        bytes@ == spec_decode(symbols@),
{
    let table = decode_hashmap();
    let mut bits: Vec<u8> = Vec::new();
    let mut i: usize = 0;
    while i < symbols.len()
        invariant
            i <= symbols@.len(),
            all_symbols(symbols@),
            table@.len() == 256,
            forall|c: int| 0 <= c < 256 ==> table@[c] == spec_value_of(c as u8),
            bits@ == bits_of_sextets(values_of_symbols(symbols@.take(i as int))),
            is_bits(bits@),
        decreases symbols@.len() - i,
    {
        let c = symbols[i];
        let v = table[c as usize];
        proof {
            lemma_sextet_bit_bounds(v);
        }
        bits.push((v >> 5) & 1);
        bits.push((v >> 4) & 1);
        bits.push((v >> 3) & 1);
        bits.push((v >> 2) & 1);
        bits.push((v >> 1) & 1);
        bits.push(v & 1);
        proof {
            assert(symbols@.take(i as int + 1) =~= symbols@.take(i as int).push(c));
            assert(values_of_symbols(symbols@.take(i as int + 1)) =~= values_of_symbols(
                symbols@.take(i as int),
            ).push(v));
            lemma_bits_of_sextets_push(values_of_symbols(symbols@.take(i as int)), v);
            assert(bits@ =~= bits_of_sextets(values_of_symbols(symbols@.take(i as int)))
                + bits_of_sextet(v));
        }
        i = i + 1;
    }
    proof {
        assert(symbols@.take(symbols@.len() as int) =~= symbols@);
    }

    // group into whole octets; trailing value-padding bits carry no data
    let blen: usize = bits.len();
    let count: usize = blen / 8;
    let mut out: Vec<u8> = Vec::new();
    let mut k: usize = 0;
    while k < count
        invariant
            k <= count,
            count == bits@.len() / 8,
            bits@.len() <= usize::MAX,
            is_bits(bits@),
            out@ == octets_of_bits(bits@.take(8 * k as int)),
        decreases count - k,
    {
        proof {
            assert(8 * (bits@.len() / 8) <= bits@.len());
        }
        let base: usize = k * 8;
        let s0 = bits[base];
        let s1 = bits[base + 1];
        let s2 = bits[base + 2];
        let s3 = bits[base + 3];
        let s4 = bits[base + 4];
        let s5 = bits[base + 5];
        let s6 = bits[base + 6];
        let s7 = bits[base + 7];
        let b: u8 = s0 * 128 + s1 * 64 + s2 * 32 + s3 * 16 + s4 * 8 + s5 * 4 + s6 * 2 + s7;
        proof {
            let g = bits@.subrange(base as int, base as int + 8);
            assert(g[0] == s0 && g[1] == s1 && g[2] == s2 && g[3] == s3 && g[4] == s4 && g[5]
                == s5 && g[6] == s6 && g[7] == s7);
            assert(b == octet_val(g));
            lemma_octets_append(bits@.take(8 * k as int), g);
            assert(bits@.take(8 * (k as int + 1)) =~= bits@.take(8 * k as int) + g);
        }
        out.push(b);
        k = k + 1;
    }
    proof {
        let whole = bits@.take(8 * count as int);
        let tail = bits@.skip(8 * count as int);
        assert(8 * (bits@.len() / 8) <= bits@.len());
        assert(bits@.len() < 8 * (bits@.len() / 8) + 8);
        lemma_octets_ignore_tail(whole, tail);
        assert(whole + tail =~= bits@);
    }
    out
}

/// The whole decode pass over an in-memory buffer: raw text in, the decoded
/// bytes out, or the validation error.
pub fn decode_routine(input: Vec<u8>) -> (r: Result<Vec<u8>, DecodeError>)
    ensures
        match r {
            Ok(bytes) => spec_decode_routine(input@) == Ok::<Seq<u8>, DecodeError>(bytes@),
            Err(e) => spec_decode_routine(input@) == Err::<Seq<u8>, DecodeError>(e),
        },
{
    match validate(&input) {
        Ok(cleaned) => Ok(decode(&cleaned)),
        Err(e) => Err(e),
    }
}

/// The round trip: for every byte sequence, decoding the encoded text
/// validates and gives the original bytes back.
pub proof fn lemma_round_trip(input: Seq<u8>)
    ensures
        spec_decode_routine(spec_encode(input)) == Ok::<Seq<u8>, DecodeError>(input),
{
    lemma_alphabet_bijection();
    lemma_bits_of_bytes_props(input);
    lemma_zero_pad6_props(bits_of_bytes(input));
    let padded = zero_pad6(bits_of_bytes(input));
    let sextets = sextets_of_bits(padded);
    lemma_sextets_bounded(padded);
    let syms = spec_symbols(input);
    assert(forall|i: int| 0 <= i < syms.len() ==> #[trigger] syms[i] != 10 && syms[i] != 61
        && spec_is_symbol(syms[i]));
    let pad = Seq::new(pad4_len(syms.len()), |i: int| 61u8);
    let text = spec_encode(input);

    // newline stripping leaves the encoding as it is
    lemma_strip_concat(syms, pad, 10);
    lemma_strip_absent(syms, 10);
    lemma_strip_absent(pad, 10);
    assert(strip_byte(text, 10) =~= text);

    // the length invariant holds
    lemma_encode_length(input);

    // stripping `=` gives the bare symbols back
    lemma_strip_concat(syms, pad, 61);
    lemma_strip_absent(syms, 61);
    lemma_strip_all(pad, 61);
    assert(strip_byte(text, 61) =~= syms);
    assert(all_symbols(syms));
    assert(spec_validate(text) == Ok::<Seq<u8>, DecodeError>(syms));

    // each symbol's value is the sextet it was mapped from
    assert(values_of_symbols(syms) =~= sextets);

    // regrouping the sextet bits gives the padded bit stream back
    lemma_regroup_sextets(padded);

    // the octet grouping drops exactly the value padding
    lemma_octets_ignore_tail(
        bits_of_bytes(input),
        padded.skip(bits_of_bytes(input).len() as int),
    );
    assert(bits_of_bytes(input) + padded.skip(bits_of_bytes(input).len() as int) =~= padded);

    // and the bytes of the original bit stream are the input
    lemma_regroup_octets(input);

    assert(spec_decode(syms) == input);
}

} // verus!
