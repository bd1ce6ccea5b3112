//! 32-byte words: the unit of the contract-ABI wire format.
//!
//! Every static value, offset and length on the wire occupies one 32-byte
//! big-endian word.  Offsets and lengths that this library produces fit in
//! a `u64`, so the canonical word for them is 24 zero bytes followed by the
//! big-endian bytes of the value.

use vstd::prelude::*;

verus! {

/// A sequence of `n` zero bytes.
pub open spec fn zeros(n: int) -> Seq<u8> {
    Seq::new(n as nat, |i: int| 0u8)
}

/// The 32-byte big-endian word holding the value `n`.
pub open spec fn word_of_u64(n: u64) -> Seq<u8> {
    zeros(24) + seq![
        (n >> 56) as u8,
        (n >> 48) as u8,
        (n >> 40) as u8,
        (n >> 32) as u8,
        (n >> 24) as u8,
        (n >> 16) as u8,
        (n >> 8) as u8,
        n as u8,
    ]
}

/// The value a 32-byte word holds, where the word is canonical for some `u64`.
pub open spec fn word_u64_of(w: Seq<u8>) -> Option<u64> {
    if exists|n: u64| w == word_of_u64(n) {
        Some(choose|n: u64| w == word_of_u64(n))
    } else {
        None
    }
}

/// `n` rounded up to the next multiple of 32.
pub open spec fn pad32(n: int) -> int {
    if n % 32 == 0 {
        n
    } else {
        n + (32 - n % 32)
    }
}

/// Distinct values have distinct canonical words.
pub proof fn lemma_word_of_u64_injective(a: u64, b: u64)
    requires
        word_of_u64(a) == word_of_u64(b),
    ensures
        a == b,
{
    assert(word_of_u64(a)[24] == (a >> 56) as u8 && word_of_u64(b)[24] == (b >> 56) as u8);
    assert(word_of_u64(a)[25] == (a >> 48) as u8 && word_of_u64(b)[25] == (b >> 48) as u8);
    assert(word_of_u64(a)[26] == (a >> 40) as u8 && word_of_u64(b)[26] == (b >> 40) as u8);
    assert(word_of_u64(a)[27] == (a >> 32) as u8 && word_of_u64(b)[27] == (b >> 32) as u8);
    assert(word_of_u64(a)[28] == (a >> 24) as u8 && word_of_u64(b)[28] == (b >> 24) as u8);
    assert(word_of_u64(a)[29] == (a >> 16) as u8 && word_of_u64(b)[29] == (b >> 16) as u8);
    assert(word_of_u64(a)[30] == (a >> 8) as u8 && word_of_u64(b)[30] == (b >> 8) as u8);
    assert(word_of_u64(a)[31] == a as u8 && word_of_u64(b)[31] == b as u8);
    assert(a == b) by (bit_vector)
        requires
            (a >> 56) as u8 == (b >> 56) as u8,
            (a >> 48) as u8 == (b >> 48) as u8,
            (a >> 40) as u8 == (b >> 40) as u8,
            (a >> 32) as u8 == (b >> 32) as u8,
            (a >> 24) as u8 == (b >> 24) as u8,
            (a >> 16) as u8 == (b >> 16) as u8,
            (a >> 8) as u8 == (b >> 8) as u8,
            a as u8 == b as u8,
    ;
}

/// Reading back the canonical word of `n` yields `n`.
pub proof fn lemma_word_u64_of_canonical(n: u64)
    ensures
        word_u64_of(word_of_u64(n)) == Some(n),
{
    assert(word_of_u64(n) == word_of_u64(n));
    let m = choose|m: u64| word_of_u64(n) == word_of_u64(m);
    lemma_word_of_u64_injective(n, m);
}

/// Builds the canonical 32-byte word for `n`.
pub fn word_u64_vec(n: u64) -> (r: Vec<u8>)
    ensures
        r@ == word_of_u64(n),
{
    let mut r: Vec<u8> = Vec::new();
    let mut i: usize = 0;
    while i < 24
        invariant
            r@ == zeros(i as int),
            i <= 24,
        decreases 24 - i,
    {
        r.push(0);
        i = i + 1;
        assert(r@ =~= zeros(i as int));
    }
    r.push((n >> 56) as u8);
    r.push((n >> 48) as u8);
    r.push((n >> 40) as u8);
    r.push((n >> 32) as u8);
    r.push((n >> 24) as u8);
    r.push((n >> 16) as u8);
    r.push((n >> 8) as u8);
    r.push(n as u8);
    assert(r@ =~= word_of_u64(n));
    r
}

/// Concatenates `src` onto the end of `dst`.
pub fn append_bytes(dst: Vec<u8>, src: &Vec<u8>) -> (r: Vec<u8>)
    ensures
        r@ == dst@ + src@,
{
    let mut r = dst;
    let mut i: usize = 0;
    while i < src.len()
        invariant
            i <= src@.len(),
            r@ == dst@ + src@.take(i as int),
        decreases src@.len() - i,
    {
        r.push(src[i]);
        i = i + 1;
        assert(r@ =~= dst@ + src@.take(i as int));
    }
    assert(r@ =~= dst@ + src@);
    r
}

/// Copies `bytes[start..end]` into a fresh vector.
pub fn copy_range(bytes: &Vec<u8>, start: usize, end: usize) -> (r: Vec<u8>)
    requires
        start <= end <= bytes@.len(),
    ensures
        r@ == bytes@.subrange(start as int, end as int),
{
    let mut r: Vec<u8> = Vec::new();
    let mut i: usize = start;
    while i < end
        invariant
            start <= i <= end <= bytes@.len(),
            r@ == bytes@.subrange(start as int, i as int),
        decreases end - i,
    {
        r.push(bytes[i]);
        i = i + 1;
        assert(r@ =~= bytes@.subrange(start as int, i as int));
    }
    r
}

/// Reads the 32-byte word at `pos` as a canonical `u64` word, if it is one.
pub fn read_word_u64(bytes: &Vec<u8>, pos: usize) -> (r: Option<u64>)
    requires
        pos + 32 <= bytes@.len(),
    ensures
        match r {
            Some(n) => bytes@.subrange(pos as int, pos as int + 32) == word_of_u64(n),
            None => word_u64_of(bytes@.subrange(pos as int, pos as int + 32)) is None,
        },
{
    let ghost w = bytes@.subrange(pos as int, pos as int + 32);
    let blen = bytes.len();
    assert(pos + 32 <= blen);
    let mut i: usize = 0;
    while i < 24
        invariant
            i <= 24,
            pos + 32 <= bytes@.len(),
            bytes@.len() <= usize::MAX,
            w == bytes@.subrange(pos as int, pos as int + 32),
            forall|k: int| 0 <= k < i ==> #[trigger] bytes@[pos + k] == 0,
        decreases 24 - i,
    {
        if bytes[pos + i] != 0 {
            proof {
                let j = i as int;
                assert(w[j] != 0);
                assert forall|n: u64| w != word_of_u64(n) by {
                    assert(word_of_u64(n)[j] == 0);
                }
            }
            return None;
        }
        i = i + 1;
    }
    let b0 = bytes[pos + 24];
    let b1 = bytes[pos + 25];
    let b2 = bytes[pos + 26];
    let b3 = bytes[pos + 27];
    let b4 = bytes[pos + 28];
    let b5 = bytes[pos + 29];
    let b6 = bytes[pos + 30];
    let b7 = bytes[pos + 31];
    let n: u64 = ((b0 as u64) << 56) | ((b1 as u64) << 48) | ((b2 as u64) << 40)
        | ((b3 as u64) << 32) | ((b4 as u64) << 24) | ((b5 as u64) << 16) | ((b6 as u64) << 8)
        | (b7 as u64);
    proof {
        assert((n >> 56) as u8 == b0 && (n >> 48) as u8 == b1 && (n >> 40) as u8 == b2 && (n
            >> 32) as u8 == b3 && (n >> 24) as u8 == b4 && (n >> 16) as u8 == b5 && (n >> 8) as u8
            == b6 && n as u8 == b7) by (bit_vector)
            requires
                n == ((b0 as u64) << 56) | ((b1 as u64) << 48) | ((b2 as u64) << 40) | ((
                b3 as u64) << 32) | ((b4 as u64) << 24) | ((b5 as u64) << 16) | ((b6 as u64) << 8)
                    | (b7 as u64),
        ;
        assert forall|j: int| 0 <= j < 32 implies w[j] == word_of_u64(n)[j] by {
            if j < 24 {
                assert(w[j] == bytes@[pos + j]);
                assert(word_of_u64(n)[j] == 0);
            }
        }
        assert(w =~= word_of_u64(n));
    }
    Some(n)
}

} // verus!
