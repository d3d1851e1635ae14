use vstd::prelude::*;

verus! {

/// The 8 bits of a byte, most-significant first, each entry 0 or 1.
pub open spec fn bits_of_byte(b: u8) -> Seq<u8> {
    seq![
        (b >> 7) & 1,
        (b >> 6) & 1,
        (b >> 5) & 1,
        (b >> 4) & 1,
        (b >> 3) & 1,
        (b >> 2) & 1,
        (b >> 1) & 1,
        b & 1,
    ]
}

/// The bit stream of a byte sequence: every byte's bits, in order.
pub open spec fn bits_of_bytes(s: Seq<u8>) -> Seq<u8>
    decreases s.len(),
{
    if s.len() == 0 {
        Seq::<u8>::empty()
    } else {
        bits_of_byte(s[0]) + bits_of_bytes(s.skip(1))
    }
}

/// The 6 bits of a sextet value, most-significant first.
pub open spec fn bits_of_sextet(v: u8) -> Seq<u8> {
    seq![(v >> 5) & 1, (v >> 4) & 1, (v >> 3) & 1, (v >> 2) & 1, (v >> 1) & 1, v & 1]
}

/// Whether every entry of a sequence is a single bit (0 or 1).
pub open spec fn is_bits(s: Seq<u8>) -> bool {
    forall|i: int| 0 <= i < s.len() ==> #[trigger] s[i] <= 1
}

/// The value of a 6-bit group, most-significant bit first.
pub open spec fn sextet_val(w: Seq<u8>) -> u8
    recommends
        w.len() == 6,
        is_bits(w),
{
    (w[0] * 32 + w[1] * 16 + w[2] * 8 + w[3] * 4 + w[4] * 2 + w[5]) as u8
}

/// The value of an 8-bit group, most-significant bit first.
pub open spec fn octet_val(w: Seq<u8>) -> u8
    recommends
        w.len() == 8,
        is_bits(w),
{
    (w[0] * 128 + w[1] * 64 + w[2] * 32 + w[3] * 16 + w[4] * 8 + w[5] * 4 + w[6] * 2 + w[7]) as u8
}

/// Consecutive 6-bit groups of a bit sequence, in order; trailing bits short
/// of a full group are dropped.
pub open spec fn sextets_of_bits(bits: Seq<u8>) -> Seq<u8>
    decreases bits.len(),
{
    if bits.len() < 6 {
        Seq::<u8>::empty()
    } else {
        seq![sextet_val(bits.take(6))] + sextets_of_bits(bits.skip(6))
    }
}

/// Consecutive 8-bit groups of a bit sequence, in order; trailing bits short
/// of a full group are dropped.
pub open spec fn octets_of_bits(bits: Seq<u8>) -> Seq<u8>
    decreases bits.len(),
{
    if bits.len() < 8 {
        Seq::<u8>::empty()
    } else {
        seq![octet_val(bits.take(8))] + octets_of_bits(bits.skip(8))
    }
}

/// The concatenated 6-bit groups of a sequence of sextet values.
pub open spec fn bits_of_sextets(vals: Seq<u8>) -> Seq<u8>
    decreases vals.len(),
{
    if vals.len() == 0 {
        Seq::<u8>::empty()
    } else {
        bits_of_sextet(vals[0]) + bits_of_sextets(vals.skip(1))
    }
}

/// Zero bits appended until the bit count is a multiple of 6 (value padding).
pub open spec fn zero_pad6(bits: Seq<u8>) -> Seq<u8> {
    bits + Seq::new(((6 - bits.len() % 6) % 6) as nat, |i: int| 0u8)
}

proof fn lemma_bit_extract_bounds(v: u8)
    by (bit_vector)
    ensures
        (v >> 7) & 1 <= 1,
        (v >> 6) & 1 <= 1,
        (v >> 5) & 1 <= 1,
        (v >> 4) & 1 <= 1,
        (v >> 3) & 1 <= 1,
        (v >> 2) & 1 <= 1,
        (v >> 1) & 1 <= 1,
        v & 1 <= 1,
{
}

proof fn lemma_byte_from_bits_bv(b: u8)
    by (bit_vector)
    ensures
        ((b >> 7) & 1) * 128 + ((b >> 6) & 1) * 64 + ((b >> 5) & 1) * 32 + ((b >> 4) & 1) * 16
            + ((b >> 3) & 1) * 8 + ((b >> 2) & 1) * 4 + ((b >> 1) & 1) * 2 + (b & 1) == b,
{
}

proof fn lemma_sextet_from_bits_bv(b0: u8, b1: u8, b2: u8, b3: u8, b4: u8, b5: u8)
    by (bit_vector)
    requires
        b0 <= 1,
        b1 <= 1,
        b2 <= 1,
        b3 <= 1,
        b4 <= 1,
        b5 <= 1,
    ensures
        b0 * 32 + b1 * 16 + b2 * 8 + b3 * 4 + b4 * 2 + b5 < 64,
        (((b0 * 32 + b1 * 16 + b2 * 8 + b3 * 4 + b4 * 2 + b5) as u8) >> 5) & 1 == b0,
        (((b0 * 32 + b1 * 16 + b2 * 8 + b3 * 4 + b4 * 2 + b5) as u8) >> 4) & 1 == b1,
        (((b0 * 32 + b1 * 16 + b2 * 8 + b3 * 4 + b4 * 2 + b5) as u8) >> 3) & 1 == b2,
        (((b0 * 32 + b1 * 16 + b2 * 8 + b3 * 4 + b4 * 2 + b5) as u8) >> 2) & 1 == b3,
        (((b0 * 32 + b1 * 16 + b2 * 8 + b3 * 4 + b4 * 2 + b5) as u8) >> 1) & 1 == b4,
        ((b0 * 32 + b1 * 16 + b2 * 8 + b3 * 4 + b4 * 2 + b5) as u8) & 1 == b5,
{
}

/// A byte's bit group has 8 single-bit entries, and its octet value is the
/// byte back.
pub proof fn lemma_byte_bits(b: u8)
    ensures
        bits_of_byte(b).len() == 8,
        is_bits(bits_of_byte(b)),
        octet_val(bits_of_byte(b)) == b,
{
    lemma_bit_extract_bounds(b);
    lemma_byte_from_bits_bv(b);
}

/// A sextet value's bit group has 6 single-bit entries.
pub proof fn lemma_sextet_bit_bounds(v: u8)
    ensures
        bits_of_sextet(v).len() == 6,
        is_bits(bits_of_sextet(v)),
{
    lemma_bit_extract_bounds(v);
}

/// A 6-bit group's value lies below 64, and its bit group is the group back.
pub proof fn lemma_sextet_bits(w: Seq<u8>)
    requires
        w.len() == 6,
        is_bits(w),
    ensures
        sextet_val(w) < 64,
        bits_of_sextet(sextet_val(w)) == w,
{
    lemma_sextet_from_bits_bv(w[0], w[1], w[2], w[3], w[4], w[5]);
    assert(bits_of_sextet(sextet_val(w)) =~= w);
}

/// Appending a byte extends the bit stream by that byte's bits.
pub proof fn lemma_bits_of_bytes_push(s: Seq<u8>, b: u8)
    ensures
        bits_of_bytes(s.push(b)) == bits_of_bytes(s) + bits_of_byte(b),
    decreases s.len(),
{
    let t = s.push(b);
    if s.len() == 0 {
        assert(t[0] == b);
        assert(t.skip(1) =~= Seq::<u8>::empty());
        assert(bits_of_bytes(t.skip(1)) == Seq::<u8>::empty());
        assert(bits_of_bytes(t) == bits_of_byte(b) + bits_of_bytes(t.skip(1)));
        assert(bits_of_bytes(t) =~= bits_of_bytes(s) + bits_of_byte(b));
    } else {
        assert(t[0] == s[0]);
        assert(t.skip(1) =~= s.skip(1).push(b));
        lemma_bits_of_bytes_push(s.skip(1), b);
        assert(bits_of_bytes(t) == bits_of_byte(s[0]) + (bits_of_bytes(s.skip(1))
            + bits_of_byte(b)));
        assert(bits_of_bytes(t) =~= bits_of_bytes(s) + bits_of_byte(b));
    }
}

/// A byte sequence's bit stream has 8 bits per byte, all single bits.
pub proof fn lemma_bits_of_bytes_props(s: Seq<u8>)
    ensures
        bits_of_bytes(s).len() == 8 * s.len(),
        is_bits(bits_of_bytes(s)),
    decreases s.len(),
{
    if s.len() == 0 {
    } else {
        lemma_byte_bits(s[0]);
        lemma_bits_of_bytes_props(s.skip(1));
        assert forall|i: int| 0 <= i < bits_of_bytes(s).len() implies #[trigger] bits_of_bytes(
            s,
        )[i] <= 1 by {
            if i < 8 {
                assert(bits_of_bytes(s)[i] == bits_of_byte(s[0])[i]);
            } else {
                assert(bits_of_bytes(s)[i] == bits_of_bytes(s.skip(1))[i - 8]);
            }
        }
    }
}

/// Appending a sextet value extends the concatenated bits by its 6-bit group.
pub proof fn lemma_bits_of_sextets_push(vals: Seq<u8>, v: u8)
    ensures
        bits_of_sextets(vals.push(v)) == bits_of_sextets(vals) + bits_of_sextet(v),
    decreases vals.len(),
{
    let t = vals.push(v);
    if vals.len() == 0 {
        assert(t[0] == v);
        assert(t.skip(1) =~= Seq::<u8>::empty());
        assert(bits_of_sextets(t.skip(1)) == Seq::<u8>::empty());
        assert(bits_of_sextets(t) == bits_of_sextet(v) + bits_of_sextets(t.skip(1)));
        assert(bits_of_sextets(t) =~= bits_of_sextets(vals) + bits_of_sextet(v));
    } else {
        assert(t[0] == vals[0]);
        assert(t.skip(1) =~= vals.skip(1).push(v));
        lemma_bits_of_sextets_push(vals.skip(1), v);
        assert(bits_of_sextets(t) == bits_of_sextet(vals[0]) + (bits_of_sextets(vals.skip(1))
            + bits_of_sextet(v)));
        assert(bits_of_sextets(t) =~= bits_of_sextets(vals) + bits_of_sextet(v));
    }
}

/// Appending one whole 6-bit group appends one sextet to the grouping.
pub proof fn lemma_sextets_append(p: Seq<u8>, g: Seq<u8>)
    requires
        p.len() % 6 == 0,
        g.len() == 6,
    ensures
        sextets_of_bits(p + g) == sextets_of_bits(p).push(sextet_val(g)),
    decreases p.len(),
{
    if p.len() == 0 {
        assert((p + g).take(6) =~= g);
        assert((p + g).skip(6) =~= Seq::<u8>::empty());
        assert(sextets_of_bits((p + g).skip(6)) == Seq::<u8>::empty());
        assert(sextets_of_bits(p + g) == seq![sextet_val(g)] + sextets_of_bits((p + g).skip(6)));
        assert(sextets_of_bits(p + g) =~= sextets_of_bits(p).push(sextet_val(g)));
    } else {
        assert((p + g).take(6) =~= p.take(6));
        assert((p + g).skip(6) =~= p.skip(6) + g);
        lemma_sextets_append(p.skip(6), g);
        assert(sextets_of_bits(p + g) == seq![sextet_val(p.take(6))] + (sextets_of_bits(p.skip(6)).push(
            sextet_val(g),
        )));
        assert(sextets_of_bits(p + g) =~= sextets_of_bits(p).push(sextet_val(g)));
    }
}

/// Appending one whole 8-bit group appends one octet to the grouping.
pub proof fn lemma_octets_append(p: Seq<u8>, g: Seq<u8>)
    requires
        p.len() % 8 == 0,
        g.len() == 8,
    ensures
        octets_of_bits(p + g) == octets_of_bits(p).push(octet_val(g)),
    decreases p.len(),
{
    if p.len() == 0 {
        assert((p + g).take(8) =~= g);
        assert((p + g).skip(8) =~= Seq::<u8>::empty());
        assert(octets_of_bits((p + g).skip(8)) == Seq::<u8>::empty());
        assert(octets_of_bits(p + g) == seq![octet_val(g)] + octets_of_bits((p + g).skip(8)));
        assert(octets_of_bits(p + g) =~= octets_of_bits(p).push(octet_val(g)));
    } else {
        assert((p + g).take(8) =~= p.take(8));
        assert((p + g).skip(8) =~= p.skip(8) + g);
        lemma_octets_append(p.skip(8), g);
        assert(octets_of_bits(p + g) == seq![octet_val(p.take(8))] + (octets_of_bits(p.skip(8)).push(
            octet_val(g),
        )));
        assert(octets_of_bits(p + g) =~= octets_of_bits(p).push(octet_val(g)));
    }
}

/// Trailing bits short of a full octet do not change the octet grouping.
pub proof fn lemma_octets_ignore_tail(bits: Seq<u8>, z: Seq<u8>)
    requires
        bits.len() % 8 == 0,
        z.len() < 8,
    ensures
        octets_of_bits(bits + z) == octets_of_bits(bits),
    decreases bits.len(),
{
    if bits.len() == 0 {
        assert(bits + z =~= z);
    } else {
        assert((bits + z).take(8) =~= bits.take(8));
        assert((bits + z).skip(8) =~= bits.skip(8) + z);
        lemma_octets_ignore_tail(bits.skip(8), z);
        assert(octets_of_bits(bits + z) =~= octets_of_bits(bits));
    }
}

/// Grouping whole-sextet bits and concatenating the groups again is the
/// identity.
pub proof fn lemma_regroup_sextets(p: Seq<u8>)
    requires
        p.len() % 6 == 0,
        is_bits(p),
    ensures
        bits_of_sextets(sextets_of_bits(p)) == p,
    decreases p.len(),
{
    if p.len() == 0 {
    } else {
        let g = p.take(6);
        assert(is_bits(g)) by {
            assert(forall|i: int| 0 <= i < 6 ==> #[trigger] g[i] == p[i]);
        }
        lemma_sextet_bits(g);
        assert(is_bits(p.skip(6))) by {
            assert(forall|i: int|
                0 <= i < p.skip(6).len() ==> #[trigger] p.skip(6)[i] == p[i + 6]);
        }
        lemma_regroup_sextets(p.skip(6));
        assert((seq![sextet_val(g)] + sextets_of_bits(p.skip(6))).skip(1) =~= sextets_of_bits(
            p.skip(6),
        ));
        assert(bits_of_sextets(sextets_of_bits(p)) =~= p);
    }
}

/// Every sextet of a single-bit sequence lies below 64.
pub proof fn lemma_sextets_bounded(bits: Seq<u8>)
    requires
        is_bits(bits),
    ensures
        forall|i: int|
            0 <= i < sextets_of_bits(bits).len() ==> #[trigger] sextets_of_bits(bits)[i] < 64,
    decreases bits.len(),
{
    if bits.len() < 6 {
    } else {
        let g = bits.take(6);
        assert(is_bits(g)) by {
            assert(forall|i: int| 0 <= i < 6 ==> #[trigger] g[i] == bits[i]);
        }
        lemma_sextet_bits(g);
        assert(is_bits(bits.skip(6))) by {
            assert(forall|i: int|
                0 <= i < bits.skip(6).len() ==> #[trigger] bits.skip(6)[i] == bits[i + 6]);
        }
        lemma_sextets_bounded(bits.skip(6));
        assert forall|i: int|
            0 <= i < sextets_of_bits(bits).len() implies #[trigger] sextets_of_bits(bits)[i]
            < 64 by {
            if i == 0 {
            } else {
                assert(sextets_of_bits(bits)[i] == sextets_of_bits(bits.skip(6))[i - 1]);
            }
        }
    }
}

/// Grouping the bit stream of a byte sequence into octets gives the bytes
/// back.
pub proof fn lemma_regroup_octets(s: Seq<u8>)
    ensures
        octets_of_bits(bits_of_bytes(s)) == s,
    decreases s.len(),
{
    if s.len() == 0 {
    } else {
        lemma_byte_bits(s[0]);
        lemma_bits_of_bytes_props(s.skip(1));
        lemma_regroup_octets(s.skip(1));
        assert(bits_of_bytes(s).take(8) =~= bits_of_byte(s[0]));
        assert(bits_of_bytes(s).skip(8) =~= bits_of_bytes(s.skip(1)));
        assert(octets_of_bits(bits_of_bytes(s)) =~= s);
    }
}

/// Whole-sextet bit sequences have one sextet per 6 bits.
pub proof fn lemma_sextets_len(bits: Seq<u8>)
    requires
        bits.len() % 6 == 0,
    ensures
        sextets_of_bits(bits).len() == bits.len() / 6,
    decreases bits.len(),
{
    if bits.len() == 0 {
    } else {
        lemma_sextets_len(bits.skip(6));
    }
}

/// Value padding keeps the bits, appends fewer than 6 zero bits, and reaches
/// a multiple of 6.
pub proof fn lemma_zero_pad6_props(bits: Seq<u8>)
    requires
        is_bits(bits),
    ensures
        zero_pad6(bits).len() % 6 == 0,
        is_bits(zero_pad6(bits)),
        bits.len() <= zero_pad6(bits).len() < bits.len() + 6,
        zero_pad6(bits).take(bits.len() as int) == bits,
        bits.len() % 6 == 0 ==> zero_pad6(bits) == bits,
{
    assert(zero_pad6(bits).take(bits.len() as int) =~= bits);
    assert forall|i: int| 0 <= i < zero_pad6(bits).len() implies #[trigger] zero_pad6(bits)[i]
        <= 1 by {
        if i < bits.len() {
            assert(zero_pad6(bits)[i] == bits[i]);
        } else {
            assert(zero_pad6(bits)[i] == 0);
        }
    }
    if bits.len() % 6 == 0 {
        assert(zero_pad6(bits) =~= bits);
    }
}

} // verus!
