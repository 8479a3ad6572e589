//! The 32-bit polynomial rolling hash shared by the hash-backed engines.
//!
//! The hash is accumulated from the last byte of a string backward, one
//! multiply-add per byte. Accumulated that way it is suffix-consistent: the
//! value after consuming the last `k` bytes equals the standalone hash of
//! that `k`-byte suffix, whatever precedes it, so one backward pass over a
//! query yields the hash of every suffix.

use vstd::prelude::*;
use vstd::wrapping::u32_specs;

verus! {

/// Multiplier of the polynomial hash.
pub const PRIMEFK: u32 = 16777619;

/// One accumulation step: `h * PRIMEFK + b`, wrapping.
#[verifier::opaque]
pub open spec fn rhash_step(h: u32, b: u8) -> u32 {
    u32_specs::wrapping_add(u32_specs::wrapping_mul(h, PRIMEFK), b as u32)
}

/// The hash of `s`, accumulated from its last byte backward out of an empty
/// state: the first byte of `s` enters last.
pub open spec fn rhash(s: Seq<u8>) -> u32
    decreases s.len(),
{
    if s.len() == 0 {
        0u32
    } else {
        rhash_step(rhash(s.drop_first()), s[0])
    }
}

/// The accumulator after consuming all of `s` backward, starting from `h`.
pub open spec fn rhash_from(s: Seq<u8>, h: u32) -> u32
    decreases s.len(),
{
    if s.len() == 0 {
        h
    } else {
        rhash_from(s.drop_last(), rhash_step(h, s.last()))
    }
}

/// Consuming a string backward out of an empty state gives its hash.
pub proof fn lemma_rhash_from_empty(s: Seq<u8>)
    ensures
        rhash_from(s, 0u32) == rhash(s),
    decreases s.len(),
{
    if s.len() > 0 {
        reveal_with_fuel(rhash_from, 2);
        let head = seq![s[0]];
        let tail = s.drop_first();
        assert(head + tail =~= s);
        lemma_rhash_from_append(head, tail, 0u32);
        assert(head.drop_last() =~= Seq::<u8>::empty());
        assert(rhash_from(head, rhash_from(tail, 0u32)) == rhash_step(rhash_from(tail, 0u32), s[0]));
        lemma_rhash_from_empty(tail);
    }
}

/// Suffix consistency: consuming `s` backward from `h` first consumes the
/// suffix `s[i..]`, so the accumulator passes through exactly the state that
/// consuming `s[i..]` alone reaches, and the rest of the run continues out of
/// that state. In particular, with `h == 0`, the accumulated value after the
/// last `s.len() - i` bytes equals the standalone hash of `s[i..]`.
pub proof fn lemma_rhash_from_split(s: Seq<u8>, i: int)
    requires
        0 <= i <= s.len(),
    ensures
        rhash_from(s, 0u32) == rhash_from(s.take(i), rhash_from(s.skip(i), 0u32)),
    decreases s.len() - i,
{
    lemma_rhash_from_append(s.take(i), s.skip(i), 0u32);
    assert(s.take(i) + s.skip(i) =~= s);
}

/// Consuming `a + b` backward from `h` consumes `b` first, then `a`.
pub proof fn lemma_rhash_from_append(a: Seq<u8>, b: Seq<u8>, h: u32)
    ensures
        rhash_from(a + b, h) == rhash_from(a, rhash_from(b, h)),
    decreases b.len(),
{
    if b.len() == 0 {
        assert(a + b =~= a);
    } else {
        assert((a + b).drop_last() =~= a + b.drop_last());
        assert((a + b).last() == b.last());
        lemma_rhash_from_append(a, b.drop_last(), rhash_step(h, b.last()));
    }
}

/// Unfolding step used by the engines' backward query loops: the hash of the
/// suffix starting at `i - 1` extends the hash of the suffix starting at `i`.
pub proof fn lemma_rhash_skip_step(s: Seq<u8>, i: int)
    requires
        1 <= i <= s.len(),
    ensures
        rhash(s.skip(i - 1)) == rhash_step(rhash(s.skip(i)), s[i - 1]),
{
    assert(s.skip(i - 1).drop_first() =~= s.skip(i));
    assert(s.skip(i - 1)[0] == s[i - 1]);
}

/// One accumulation step, executable.
pub fn rolling_step(h: u32, b: u8) -> (r: u32)
    ensures
        r == rhash_step(h, b),
{
    proof {
        reveal(rhash_step);
    }
    h.wrapping_mul(PRIMEFK).wrapping_add(b as u32)
}

/// The hash of a whole byte string, accumulated backward.
pub fn rolling_hash(s: &[u8]) -> (r: u32)
    ensures
        r == rhash(s@),
{
    let mut h: u32 = 0;
    let mut i: usize = s.len();
    assert(s@.skip(s@.len() as int) =~= Seq::<u8>::empty());
    while i > 0
        invariant
            0 <= i <= s@.len(),
            h == rhash(s@.skip(i as int)),
        decreases i,
    {
        let b = s[i - 1];
        proof {
            lemma_rhash_skip_step(s@, i as int);
        }
        h = rolling_step(h, b);
        i = i - 1;
    }
    assert(s@.skip(0) =~= s@);
    h
}

} // verus!
