//! The 32-bit murmur-style hash over byte strings: 4-byte little-endian
//! blocks mixed with two odd constants and rotations, a tail mix for the
//! last one to three bytes, and a final avalanche over the length.

use vstd::prelude::*;
use vstd::wrapping::u32_specs;

verus! {

pub const C1: u32 = 0xcc9e2d51;

pub const C2: u32 = 0x1b873593;

/// Scramble one 32-bit block.
#[verifier::opaque]
pub open spec fn scramble(k: u32) -> u32 {
    let k1 = u32_specs::wrapping_mul(k, C1);
    let k2 = (k1 << 15) | (k1 >> 17);
    u32_specs::wrapping_mul(k2, C2)
}

/// Fold one scrambled block into the state.
#[verifier::opaque]
pub open spec fn mur_round(h: u32, k: u32) -> u32 {
    let h1 = h ^ scramble(k);
    let h2 = (h1 << 13) | (h1 >> 19);
    u32_specs::wrapping_add(u32_specs::wrapping_mul(h2, 5), 0xe6546b64)
}

/// Four bytes read little-endian.
pub open spec fn le32u(s: Seq<u8>, i: int) -> u32 {
    (s[i] as u32) | ((s[i + 1] as u32) << 8) | ((s[i + 2] as u32) << 16) | ((s[i + 3] as u32)
        << 24)
}

/// The state after all whole 4-byte blocks.
pub open spec fn mur_blocks(h: u32, s: Seq<u8>) -> u32
    decreases s.len(),
{
    if s.len() >= 4 {
        mur_blocks(mur_round(h, le32u(s, 0)), s.skip(4))
    } else {
        h
    }
}

/// What remains of the input after the whole 4-byte blocks.
pub open spec fn mur_tail_seq(s: Seq<u8>) -> Seq<u8>
    decreases s.len(),
{
    if s.len() >= 4 {
        mur_tail_seq(s.skip(4))
    } else {
        s
    }
}

/// The last one to three bytes packed little-endian.
pub open spec fn tail_word(s: Seq<u8>) -> u32 {
    if s.len() == 3 {
        ((s[2] as u32) << 16) ^ ((s[1] as u32) << 8) ^ (s[0] as u32)
    } else if s.len() == 2 {
        ((s[1] as u32) << 8) ^ (s[0] as u32)
    } else {
        s[0] as u32
    }
}

/// Mix the tail bytes, if any, into the state.
pub open spec fn mur_tail(h: u32, s: Seq<u8>) -> u32 {
    if s.len() == 0 {
        h
    } else {
        h ^ scramble(tail_word(s))
    }
}

/// The final avalanche over the input length.
#[verifier::opaque]
pub open spec fn mur_fmix(h: u32, len: nat) -> u32 {
    let h1 = h ^ ((len % 0x1_0000_0000) as u32);
    let h2 = h1 ^ (h1 >> 16);
    let h3 = u32_specs::wrapping_mul(h2, 0x85ebca6b);
    let h4 = h3 ^ (h3 >> 13);
    let h5 = u32_specs::wrapping_mul(h4, 0xc2b2ae35);
    h5 ^ (h5 >> 16)
}

/// The murmur hash of `s` under `seed`.
pub open spec fn murmur_spec(seed: u32, s: Seq<u8>) -> u32 {
    mur_fmix(mur_tail(mur_blocks(seed, s), mur_tail_seq(s)), s.len())
}

/// A seed, hashing byte strings under itself.
pub trait Murmur3: Sized {
    /// The value `murmur_hash` computes.
    spec fn mur_spec(self, bytes: Seq<u8>) -> u32;

    /// Hash the bytes under this seed.
    fn murmur_hash(self, bytes: &[u8]) -> (r: u32)
        ensures
            r == self.mur_spec(bytes@),
    ;
}

/// Scramble one block, executable.
fn scramble_block(k: u32) -> (r: u32)
    ensures
        r == scramble(k),
{
    proof {
        reveal(scramble);
    }
    let k1 = k.wrapping_mul(C1);
    let k2 = (k1 << 15u32) | (k1 >> 17u32);
    k2.wrapping_mul(C2)
}

/// Fold one block into the state, executable.
fn round_block(h: u32, k: u32) -> (r: u32)
    ensures
        r == mur_round(h, k),
{
    proof {
        reveal(mur_round);
    }
    let h1 = h ^ scramble_block(k);
    let h2 = (h1 << 13u32) | (h1 >> 19u32);
    h2.wrapping_mul(5).wrapping_add(0xe6546b64)
}

/// Four bytes at `i`, read little-endian.
fn read_block(s: &[u8], i: usize) -> (r: u32)
    requires
        i + 4 <= s@.len(),
    ensures
        r == le32u(s@, i as int),
{
    (s[i] as u32) | ((s[i + 1] as u32) << 8u32) | ((s[i + 2] as u32) << 16u32) | ((s[i + 3] as u32)
        << 24u32)
}

impl Murmur3 for u32 {
    open spec fn mur_spec(self, bytes: Seq<u8>) -> u32 {
        murmur_spec(self, bytes)
    }

    fn murmur_hash(self, bytes: &[u8]) -> (r: u32) {
        let ghost s = bytes@;
        let len0 = bytes.len();
        let mut h: u32 = self;
        let mut off: usize = 0;
        let mut len = len0;
        proof {
            assert(s.skip(0) =~= s);
        }
        while len >= 4
            invariant
                s == bytes@,
                s.len() <= usize::MAX,
                off + len == s.len(),
                mur_blocks(h, s.skip(off as int)) == mur_blocks(self, s),
                mur_tail_seq(s.skip(off as int)) == mur_tail_seq(s),
            decreases len,
        {
            let ghost tail = s.skip(off as int);
            proof {
                assert(tail.len() == len);
                assert(le32u(tail, 0) == le32u(s, off as int));
                assert(tail.skip(4) =~= s.skip(off + 4));
            }
            let k = read_block(bytes, off);
            h = round_block(h, k);
            off = off + 4;
            len = len - 4;
        }
        let ghost rem = s.skip(off as int);
        proof {
            assert(rem.len() == len);
            assert(mur_tail_seq(s) == rem);
            assert(mur_blocks(h, rem) == h);
        }
        if len == 3 {
            let k = ((bytes[off + 2] as u32) << 16u32) ^ ((bytes[off + 1] as u32) << 8u32) ^ (
            bytes[off] as u32);
            proof {
                assert(rem[0] == s[off as int] && rem[1] == s[off + 1] && rem[2] == s[off + 2]);
                assert(k == tail_word(rem));
            }
            h = h ^ scramble_block(k);
        } else if len == 2 {
            let k = ((bytes[off + 1] as u32) << 8u32) ^ (bytes[off] as u32);
            proof {
                assert(rem[0] == s[off as int] && rem[1] == s[off + 1]);
                assert(k == tail_word(rem));
            }
            h = h ^ scramble_block(k);
        } else if len == 1 {
            let k = bytes[off] as u32;
            proof {
                assert(rem[0] == s[off as int]);
                assert(k == tail_word(rem));
            }
            h = h ^ scramble_block(k);
        }
        proof {
            assert(h == mur_tail(mur_blocks(self, s), mur_tail_seq(s)));
            reveal(mur_fmix);
        }
        let lenw = ((len0 as u64) % 0x1_0000_0000u64) as u32;
        proof {
            assert(lenw == (s.len() % 0x1_0000_0000) as u32);
        }
        h = h ^ lenw;
        h = h ^ (h >> 16u32);
        h = h.wrapping_mul(0x85ebca6b);
        h = h ^ (h >> 13u32);
        h = h.wrapping_mul(0xc2b2ae35);
        h = h ^ (h >> 16u32);
        h
    }
}

} // verus!
