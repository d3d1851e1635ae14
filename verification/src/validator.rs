use vstd::prelude::*;

use crate::alphabet::{spec_is_symbol, valid_chars_hashmap};
use crate::errors::DecodeError;

verus! {

/// The sequence with every occurrence of one byte removed, order kept.
pub open spec fn strip_byte(s: Seq<u8>, c: u8) -> Seq<u8>
    decreases s.len(),
{
    if s.len() == 0 {
        Seq::<u8>::empty()
    } else if s[0] == c {
        strip_byte(s.skip(1), c)
    } else {
        seq![s[0]] + strip_byte(s.skip(1), c)
    }
}

/// Whether every byte of a sequence is an alphabet symbol.
pub open spec fn all_symbols(s: Seq<u8>) -> bool {
    forall|i: int| 0 <= i < s.len() ==> spec_is_symbol(#[trigger] s[i])
}

/// The index of the first byte that is not an alphabet symbol; the length
/// when every byte is one.
pub open spec fn first_non_symbol(s: Seq<u8>) -> int
    decreases s.len(),
{
    if s.len() == 0 {
        0
    } else if !spec_is_symbol(s[0]) {
        0
    } else {
        1 + first_non_symbol(s.skip(1))
    }
}

/// What validation returns: newlines stripped, the length checked against the
/// multiple-of-4 invariant, `=` padding stripped, and every remaining byte
/// checked against the alphabet, failing fast at the first miss.
pub open spec fn spec_validate(s: Seq<u8>) -> Result<Seq<u8>, DecodeError> {
    let t = strip_byte(s, 10);
    if t.len() % 4 != 0 {
        Err(DecodeError::LengthError { length: t.len() as usize })
    } else {
        let u = strip_byte(t, 61);
        if all_symbols(u) {
            Ok(u)
        } else {
            Err(DecodeError::InvalidCharacter { found: u[first_non_symbol(u)] })
        }
    }
}

/// Appending a byte either extends the stripped sequence or leaves it as it
/// was, according to whether the byte is the one stripped.
pub proof fn lemma_strip_push(s: Seq<u8>, c: u8, x: u8)
    ensures
        strip_byte(s.push(x), c) == if x == c {
            strip_byte(s, c)
        } else {
            strip_byte(s, c).push(x)
        },
    decreases s.len(),
{
    let t = s.push(x);
    if s.len() == 0 {
        assert(t[0] == x);
        assert(t.skip(1) =~= Seq::<u8>::empty());
        assert(strip_byte(t.skip(1), c) == Seq::<u8>::empty());
        if x == c {
            assert(strip_byte(t, c) == strip_byte(s, c));
        } else {
            assert(strip_byte(t, c) =~= strip_byte(s, c).push(x));
        }
    } else {
        assert(t[0] == s[0]);
        assert(t.skip(1) =~= s.skip(1).push(x));
        lemma_strip_push(s.skip(1), c, x);
        if x == c {
            assert(strip_byte(t, c) =~= strip_byte(s, c));
        } else {
            assert(strip_byte(t, c) =~= strip_byte(s, c).push(x));
        }
    }
}

/// Stripping a byte that does not occur is the identity.
pub proof fn lemma_strip_absent(s: Seq<u8>, c: u8)
    requires
        forall|i: int| 0 <= i < s.len() ==> #[trigger] s[i] != c,
    ensures
        strip_byte(s, c) == s,
    decreases s.len(),
{
    if s.len() == 0 {
    } else {
        assert(forall|i: int|
            0 <= i < s.skip(1).len() ==> #[trigger] s.skip(1)[i] == s[i + 1]);
        lemma_strip_absent(s.skip(1), c);
        assert(strip_byte(s, c) =~= s);
    }
}

/// Stripping a byte from a sequence made only of it leaves nothing.
pub proof fn lemma_strip_all(s: Seq<u8>, c: u8)
    requires
        forall|i: int| 0 <= i < s.len() ==> #[trigger] s[i] == c,
    ensures
        strip_byte(s, c) == Seq::<u8>::empty(),
    decreases s.len(),
{
    if s.len() == 0 {
    } else {
        assert(forall|i: int|
            0 <= i < s.skip(1).len() ==> #[trigger] s.skip(1)[i] == s[i + 1]);
        lemma_strip_all(s.skip(1), c);
    }
}

/// Stripping distributes over concatenation.
pub proof fn lemma_strip_concat(a: Seq<u8>, b: Seq<u8>, c: u8)
    ensures
        strip_byte(a + b, c) == strip_byte(a, c) + strip_byte(b, c),
    decreases a.len(),
{
    if a.len() == 0 {
        assert(a + b =~= b);
        assert(strip_byte(a, c) + strip_byte(b, c) =~= strip_byte(b, c));
    } else {
        assert((a + b)[0] == a[0]);
        assert((a + b).skip(1) =~= a.skip(1) + b);
        lemma_strip_concat(a.skip(1), b, c);
        if a[0] == c {
            assert(strip_byte(a + b, c) =~= strip_byte(a, c) + strip_byte(b, c));
        } else {
            assert(strip_byte(a + b, c) =~= strip_byte(a, c) + strip_byte(b, c));
        }
    }
}

/// When everything before position `i` is a symbol and the byte there is not,
/// `i` is the first non-symbol position.
pub proof fn lemma_first_non_symbol_at(s: Seq<u8>, i: int)
    requires
        0 <= i < s.len(),
        forall|j: int| 0 <= j < i ==> spec_is_symbol(#[trigger] s[j]),
        !spec_is_symbol(s[i]),
    ensures
        first_non_symbol(s) == i,
    decreases i,
{
    if i == 0 {
    } else {
        assert(forall|j: int|
            0 <= j < s.skip(1).len() ==> #[trigger] s.skip(1)[j] == s[j + 1]);
        lemma_first_non_symbol_at(s.skip(1), i - 1);
    }
}

/// The validation gate. On success the cleaned symbol sequence comes back:
/// newlines and `=` padding removed, order kept, every byte an alphabet
/// symbol. `LengthError` reports a newline-stripped length that is not a
/// multiple of 4; `InvalidCharacter` reports the first byte outside the
/// alphabet, and nothing past it is scanned.
pub fn validate(raw: &Vec<u8>) -> (r: Result<Vec<u8>, DecodeError>)
    ensures
        match r {
            Ok(cleaned) => spec_validate(raw@) == Ok::<Seq<u8>, DecodeError>(cleaned@)
                && all_symbols(cleaned@),
            Err(e) => spec_validate(raw@) == Err::<Seq<u8>, DecodeError>(e),
        },
{
    // newlines are line-wrap artifacts, never data
    let mut stripped: Vec<u8> = Vec::new();
    let mut i: usize = 0;
    while i < raw.len()
        invariant
            i <= raw@.len(),
            stripped@ == strip_byte(raw@.take(i as int), 10),
        decreases raw@.len() - i,
    {
        let b = raw[i];
        proof {
            assert(raw@.take(i as int + 1) =~= raw@.take(i as int).push(b));
            lemma_strip_push(raw@.take(i as int), 10, b);
        }
        if b != 10 {
            stripped.push(b);
        }
        i = i + 1;
    }
    proof {
        assert(raw@.take(raw@.len() as int) =~= raw@);
    }

    // the structural padding invariant of the encoding
    if stripped.len() % 4 != 0 {
        return Err(DecodeError::LengthError { length: stripped.len() });
    }

    // padding only satisfies the length invariant; it carries no bit value
    let mut cleaned: Vec<u8> = Vec::new();
    let mut i: usize = 0;
    while i < stripped.len()
        invariant
            i <= stripped@.len(),
            cleaned@ == strip_byte(stripped@.take(i as int), 61),
        decreases stripped@.len() - i,
    {
        let b = stripped[i];
        proof {
            assert(stripped@.take(i as int + 1) =~= stripped@.take(i as int).push(b));
            lemma_strip_push(stripped@.take(i as int), 61, b);
        }
        if b != 61 {
            cleaned.push(b);
        }
        i = i + 1;
    }
    proof {
        assert(stripped@.take(stripped@.len() as int) =~= stripped@);
    }

    // every remaining byte must be an alphabet symbol; fail fast on a miss
    let table = valid_chars_hashmap();
    let mut i: usize = 0;
    while i < cleaned.len()
        invariant
            i <= cleaned@.len(),
            stripped@ == strip_byte(raw@, 10),
            stripped@.len() % 4 == 0,
            cleaned@ == strip_byte(stripped@, 61),
            table@.len() == 256,
            forall|c: int| 0 <= c < 256 ==> table@[c] == spec_is_symbol(c as u8),
            forall|j: int| 0 <= j < i ==> spec_is_symbol(#[trigger] cleaned@[j]),
        decreases cleaned@.len() - i,
    {
        let b = cleaned[i];
        if !table[b as usize] {
            proof {
                lemma_first_non_symbol_at(cleaned@, i as int);
            }
            return Err(DecodeError::InvalidCharacter { found: b });
        }
        i = i + 1;
    }
    Ok(cleaned)
}

/// Idempotence of validation: a cleaned sequence that validation returned,
/// when its own length passes the multiple-of-4 check, validates to itself.
/// (A cleaned sequence whose input carried `=` padding is shorter than a
/// multiple of 4 and is rejected by the length check instead.)
pub proof fn lemma_validate_idempotent(s: Seq<u8>, u: Seq<u8>)
    requires
        spec_validate(s) == Ok::<Seq<u8>, DecodeError>(u),
        u.len() % 4 == 0,
    ensures
        spec_validate(u) == Ok::<Seq<u8>, DecodeError>(u),
{
    assert(all_symbols(u));
    assert(forall|i: int| 0 <= i < u.len() ==> #[trigger] u[i] != 10);
    lemma_strip_absent(u, 10);
    assert(forall|i: int| 0 <= i < u.len() ==> #[trigger] u[i] != 61);
    lemma_strip_absent(u, 61);
}

} // verus!
