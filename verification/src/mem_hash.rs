//! The seeded 32-bit keyed hash used for perfect-hash slot selection: a
//! deterministic mix of 64-bit multiply, rotate-left-31 and xor stages with
//! fixed odd constants, a distinct path per input-length class, and a final
//! avalanche. Determinism and dispersion are all the design asks of it.

use vstd::prelude::*;
use vstd::wrapping::u64_specs;

verus! {

/// Fixed odd 64-bit mixing constants.
pub const M1: u64 = 16877499708836156737;

pub const M2: u64 = 2820277070424839065;

pub const M3: u64 = 9497967016996688599;

pub const M4: u64 = 15839092249703872147;

/// Rotate left by 31.
pub open spec fn rotl31_spec(x: u64) -> u64 {
    (x << 31) | (x >> 33)
}

/// One mixing stage: multiply, rotate, multiply.
#[verifier::opaque]
pub open spec fn stir(h: u64, ka: u64, kb: u64) -> u64 {
    u64_specs::wrapping_mul(rotl31_spec(u64_specs::wrapping_mul(h, ka)), kb)
}

/// Four bytes read little-endian, widened to 64 bits.
pub open spec fn le32(s: Seq<u8>, i: int) -> u64 {
    (s[i] as u64) | ((s[i + 1] as u64) << 8) | ((s[i + 2] as u64) << 16) | ((s[i + 3] as u64)
        << 24)
}

/// Eight bytes read little-endian.
pub open spec fn le64(s: Seq<u8>, i: int) -> u64 {
    (s[i] as u64) | ((s[i + 1] as u64) << 8) | ((s[i + 2] as u64) << 16) | ((s[i + 3] as u64)
        << 24) | ((s[i + 4] as u64) << 32) | ((s[i + 5] as u64) << 40) | ((s[i + 6] as u64) << 48)
        | ((s[i + 7] as u64) << 56)
}

/// The mix for an input (or input remainder) of at most 32 bytes.
pub open spec fn small_mix(h: u64, s: Seq<u8>) -> u64 {
    let n = s.len() as int;
    if n == 0 {
        h
    } else if n <= 3 {
        stir(h ^ (s[0] as u64) ^ ((s[n / 2] as u64) << 8) ^ ((s[n - 1] as u64) << 16), M1, M2)
    } else if n <= 8 {
        stir(h ^ le32(s, 0) ^ (le32(s, n - 4) << 32), M1, M2)
    } else if n <= 16 {
        stir(stir(h ^ le64(s, 0), M1, M2) ^ le64(s, n - 8), M1, M2)
    } else {
        stir(
            stir(stir(stir(h ^ le64(s, 0), M1, M2) ^ le64(s, 8), M1, M2) ^ le64(s, n - 16), M1, M2)
                ^ le64(s, n - 8),
            M1,
            M2,
        )
    }
}

/// The four-lane mix over whole 32-byte blocks, collapsed by xor at the end.
pub open spec fn big_loop(v1: u64, v2: u64, v3: u64, v4: u64, s: Seq<u8>) -> u64
    decreases s.len(),
{
    if s.len() >= 32 {
        big_loop(
            stir(v1 ^ le64(s, 0), M1, M2),
            stir(v2 ^ le64(s, 8), M2, M3),
            stir(v3 ^ le64(s, 16), M3, M4),
            stir(v4 ^ le64(s, 24), M4, M1),
            s.skip(32),
        )
    } else {
        v1 ^ v2 ^ v3 ^ v4
    }
}

/// What remains of the input after the whole 32-byte blocks.
pub open spec fn big_tail(s: Seq<u8>) -> Seq<u8>
    decreases s.len(),
{
    if s.len() >= 32 {
        big_tail(s.skip(32))
    } else {
        s
    }
}

/// The final avalanche: xor-shift, multiply, xor-shift, truncate.
#[verifier::opaque]
pub open spec fn avalanche(h: u64) -> u32 {
    let h1 = h ^ (h >> 29);
    let h2 = u64_specs::wrapping_mul(h1, M3);
    let h3 = h2 ^ (h2 >> 32);
    h3 as u32
}

/// The keyed hash of `s` under `seed`.
pub open spec fn mem_hash_spec(seed: u32, s: Seq<u8>) -> u32 {
    let h0 = ((seed + s.len()) % 0x1_0000_0000_0000_0000) as u64;
    let mixed = if s.len() > 32 {
        small_mix(big_loop(h0, seed as u64, seed as u64, seed as u64, s), big_tail(s))
    } else {
        small_mix(h0, s)
    };
    avalanche(mixed)
}

/// A seed, hashing byte strings under itself.
pub trait MemHash: Sized {
    /// The value `mem_hash` computes.
    spec fn hash_spec(self, bytes: Seq<u8>) -> u32;

    /// Hash the bytes under this seed.
    fn mem_hash(self, bytes: &[u8]) -> (r: u32)
        ensures
            r == self.hash_spec(bytes@),
    ;
}

/// Rotate left by 31 bits.
fn rotl31(x: u64) -> (r: u64)
    ensures
        r == rotl31_spec(x),
{
    (x << 31u64) | (x >> 33u64)
}

/// One mixing stage, executable.
fn stir_mix(h: u64, ka: u64, kb: u64) -> (r: u64)
    ensures
        r == stir(h, ka, kb),
{
    proof {
        reveal(stir);
    }
    rotl31(h.wrapping_mul(ka)).wrapping_mul(kb)
}

/// Four bytes at `i`, read little-endian.
fn read32(s: &[u8], i: usize) -> (r: u64)
    requires
        i + 4 <= s@.len(),
    ensures
        r == le32(s@, i as int),
{
    (s[i] as u64) | ((s[i + 1] as u64) << 8u64) | ((s[i + 2] as u64) << 16u64) | ((s[i + 3] as u64)
        << 24u64)
}

/// Eight bytes at `i`, read little-endian.
fn read64(s: &[u8], i: usize) -> (r: u64)
    requires
        i + 8 <= s@.len(),
    ensures
        r == le64(s@, i as int),
{
    (s[i] as u64) | ((s[i + 1] as u64) << 8u64) | ((s[i + 2] as u64) << 16u64) | ((s[i + 3] as u64)
        << 24u64) | ((s[i + 4] as u64) << 32u64) | ((s[i + 5] as u64) << 40u64) | ((s[i
        + 6] as u64) << 48u64) | ((s[i + 7] as u64) << 56u64)
}

impl MemHash for u32 {
    open spec fn hash_spec(self, bytes: Seq<u8>) -> u32 {
        mem_hash_spec(self, bytes)
    }

    fn mem_hash(self, bytes: &[u8]) -> (r: u32) {
        let ghost s = bytes@;
        let len0 = bytes.len();
        let mut h: u64 = (self as u64).wrapping_add(len0 as u64);
        proof {
            assert(h == ((self + s.len()) % 0x1_0000_0000_0000_0000) as u64);
        }
        let mut off: usize = 0;
        let mut len = len0;
        if len > 32 {
            let mut v1 = h;
            let mut v2 = self as u64;
            let mut v3 = self as u64;
            let mut v4 = self as u64;
            proof {
                assert(s.skip(0) =~= s);
            }
            while len >= 32
                invariant
                    s == bytes@,
                    s.len() <= usize::MAX,
                    off + len == s.len(),
                    off <= s.len(),
                    big_loop(v1, v2, v3, v4, s.skip(off as int)) == big_loop(
                        ((self + s.len()) % 0x1_0000_0000_0000_0000) as u64,
                        self as u64,
                        self as u64,
                        self as u64,
                        s,
                    ),
                    big_tail(s.skip(off as int)) == big_tail(s),
                decreases len,
            {
                let ghost tail = s.skip(off as int);
                proof {
                    assert(tail.len() == len);
                    assert(le64(tail, 0) == le64(s, off as int));
                    assert(le64(tail, 8) == le64(s, off + 8));
                    assert(le64(tail, 16) == le64(s, off + 16));
                    assert(le64(tail, 24) == le64(s, off + 24));
                    assert(tail.skip(32) =~= s.skip(off + 32));
                }
                v1 = stir_mix(v1 ^ read64(bytes, off), M1, M2);
                v2 = stir_mix(v2 ^ read64(bytes, off + 8), M2, M3);
                v3 = stir_mix(v3 ^ read64(bytes, off + 16), M3, M4);
                v4 = stir_mix(v4 ^ read64(bytes, off + 24), M4, M1);
                off = off + 32;
                len = len - 32;
            }
            h = v1 ^ v2 ^ v3 ^ v4;
            proof {
                assert(big_loop(v1, v2, v3, v4, s.skip(off as int)) == h);
            }
        } else {
            proof {
                assert(s.skip(0) =~= s);
            }
        }
        let ghost rem = s.skip(off as int);
        proof {
            assert(rem.len() == len);
            if s.len() > 32 {
                assert(big_tail(s) == rem);
            } else {
                assert(rem == s);
            }
        }
        // the remainder of fewer than 33 bytes
        if len == 0 {
        } else if len <= 3 {
            let b0 = bytes[off] as u64;
            let bm = bytes[off + (len / 2)] as u64;
            let bl = bytes[off + (len - 1)] as u64;
            proof {
                assert(rem[0] == s[off as int]);
                assert(rem[(rem.len() as int) / 2] == s[off + (len / 2)]);
                assert(rem[rem.len() - 1] == s[off + (len - 1)]);
            }
            h = stir_mix(h ^ b0 ^ (bm << 8u64) ^ (bl << 16u64), M1, M2);
        } else if len <= 8 {
            proof {
                assert(le32(rem, 0) == le32(s, off as int));
                assert(le32(rem, rem.len() - 4) == le32(s, off + (len - 4)));
            }
            let a = read32(bytes, off);
            let b = read32(bytes, off + (len - 4));
            h = stir_mix(h ^ a ^ (b << 32u64), M1, M2);
        } else if len <= 16 {
            proof {
                assert(le64(rem, 0) == le64(s, off as int));
                assert(le64(rem, rem.len() - 8) == le64(s, off + (len - 8)));
            }
            let a = read64(bytes, off);
            h = stir_mix(h ^ a, M1, M2);
            let b = read64(bytes, off + (len - 8));
            h = stir_mix(h ^ b, M1, M2);
        } else {
            proof {
                assert(le64(rem, 0) == le64(s, off as int));
                assert(le64(rem, 8) == le64(s, off + 8));
                assert(le64(rem, rem.len() - 16) == le64(s, off + (len - 16)));
                assert(le64(rem, rem.len() - 8) == le64(s, off + (len - 8)));
            }
            let a = read64(bytes, off);
            h = stir_mix(h ^ a, M1, M2);
            let b = read64(bytes, off + 8);
            h = stir_mix(h ^ b, M1, M2);
            let c = read64(bytes, off + (len - 16));
            h = stir_mix(h ^ c, M1, M2);
            let d = read64(bytes, off + (len - 8));
            h = stir_mix(h ^ d, M1, M2);
        }
        proof {
            assert(h == (if s.len() > 32 {
                small_mix(
                    big_loop(
                        ((self + s.len()) % 0x1_0000_0000_0000_0000) as u64,
                        self as u64,
                        self as u64,
                        self as u64,
                        s,
                    ),
                    big_tail(s),
                )
            } else {
                small_mix(((self + s.len()) % 0x1_0000_0000_0000_0000) as u64, s)
            }));
        }
        proof {
            reveal(avalanche);
        }
        let ghost mixed = h;
        h = h ^ (h >> 29u64);
        h = h.wrapping_mul(M3);
        h = h ^ (h >> 32u64);
        let r = #[verifier::truncate] (h as u32);
        proof {
            assert(r == avalanche(mixed));
        }
        r
    }
}

} // verus!
