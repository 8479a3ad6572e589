use domain_matcher::mem_hash::MemHash;
use domain_matcher::murmur3::Murmur3;
use domain_matcher::rolling::rolling_hash;
use domain_matcher::rolling::rolling_step;

#[test]
fn mem_hash_test_murmur_hash() {
    // 1..3
    assert_eq!(29u32.mem_hash(b"!"), 3384973587);
    assert_eq!(0u32.mem_hash(b"abc"), 1955219658);
    // 4..=8
    assert_eq!(20u32.mem_hash(b"adse"), 3777490067);
    assert_eq!(20u32.mem_hash(b"adsewhat"), 1791704035);
    // 9..=16
    assert_eq!(0u32.mem_hash(b"iamwhatiam.com"), 1043576267u32);
    // 16..=32
    assert_eq!(29u32.mem_hash(b"Hello, DomainMatcher!"), 1037925162);
    // >32
    assert_eq!(
        29u32.mem_hash(b"the quick brown fox jumps over the lazy dog"),
        3043016509
    );
    assert_eq!(
        0u32.mem_hash(b"adservice%5c.google%5c.%28%5ba-z%5d%7b2%7d%7ccom?)(\\.[a-z]{2})?$"),
        2880172322u32
    );
}

#[test]
fn murmur3_test_murmur_hash() {
    assert_eq!(0u32.murmur_hash(b""), 0);
    assert_eq!(1u32.murmur_hash(b""), 0x514e28b7);
    assert_eq!(0xffffffffu32.murmur_hash(b""), 0x81f16f39);
    assert_eq!(0x9747b28cu32.murmur_hash(b"Hello, world!"), 0x24884cba);
    assert_eq!(0u32.murmur_hash(b"\xff\xff\xff\xff"), 0x76293b50);
    assert_eq!(0u32.murmur_hash(b"!Ce\x87"), 0xf55b516b);
    assert_eq!(0u32.murmur_hash(b"!Ce"), 0x7e4a8634);
    assert_eq!(0u32.murmur_hash(b"!C"), 0xa0f7b07a);
    assert_eq!(0u32.murmur_hash(b"!"), 0x72661cf4);
    assert_eq!(0u32.murmur_hash(b"\x00\x00\x00\x00"), 0x2362f9de);
    assert_eq!(0u32.murmur_hash(b"\x00\x00\x00"), 0x85f0b427);
    assert_eq!(0u32.murmur_hash(b"\x00\x00"), 0x30f4c306);
}

// Suffix consistency of the backward rolling hash: the accumulator reached
// after consuming the last bytes of a string equals the standalone hash of
// that suffix, and continuing the run from it gives the whole string's hash.
#[test]
fn rolling_suffix_consistency() {
    let s = b"xyz.abc";
    let suffix = b".abc";
    let full = rolling_hash(s);
    let mut h = rolling_hash(suffix);
    assert_eq!(h, rolling_hash(b".abc"));
    h = rolling_step(h, b'z');
    h = rolling_step(h, b'y');
    h = rolling_step(h, b'x');
    assert_eq!(h, full);
    // every split point of a short string
    let t = b"a.b";
    for i in 0..t.len() {
        let tail = &t[i..];
        let mut acc: u32 = 0;
        for j in (i..t.len()).rev() {
            acc = rolling_step(acc, t[j]);
        }
        assert_eq!(acc, rolling_hash(tail));
    }
}

#[test]
fn rolling_hash_exact_values() {
    assert_eq!(rolling_hash(b""), 0);
    assert_eq!(rolling_hash(b"a"), b'a' as u32);
    // h("ab") accumulates 'b' first, then 'a': h = b * 16777619 + a
    let expected = (b'b' as u32).wrapping_mul(16777619).wrapping_add(b'a' as u32);
    assert_eq!(rolling_hash(b"ab"), expected);
}
