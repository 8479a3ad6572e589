//! The 53-symbol host-name alphabet: 26 case-folded letters, 13 punctuation
//! symbols, the four of `- . _ ~`, and 10 digits. Every byte outside this set
//! folds to class 0, the same class as `a`/`A`.

use vstd::prelude::*;

verus! {

/// Number of symbol classes a trie node has edges for.
pub const ALPHABET_SIZE: usize = 53;

/// The class a byte folds to. Letters fold case; `!$&'()*+,;=:%`, `- . _ ~`
/// and the digits get classes of their own; anything else folds to class 0.
pub open spec fn cls(b: u8) -> u8 {
    if b == 65 || b == 97 {
        0
    } else if b == 66 || b == 98 {
        1
    } else if b == 67 || b == 99 {
        2
    } else if b == 68 || b == 100 {
        3
    } else if b == 69 || b == 101 {
        4
    } else if b == 70 || b == 102 {
        5
    } else if b == 71 || b == 103 {
        6
    } else if b == 72 || b == 104 {
        7
    } else if b == 73 || b == 105 {
        8
    } else if b == 74 || b == 106 {
        9
    } else if b == 75 || b == 107 {
        10
    } else if b == 76 || b == 108 {
        11
    } else if b == 77 || b == 109 {
        12
    } else if b == 78 || b == 110 {
        13
    } else if b == 79 || b == 111 {
        14
    } else if b == 80 || b == 112 {
        15
    } else if b == 81 || b == 113 {
        16
    } else if b == 82 || b == 114 {
        17
    } else if b == 83 || b == 115 {
        18
    } else if b == 84 || b == 116 {
        19
    } else if b == 85 || b == 117 {
        20
    } else if b == 86 || b == 118 {
        21
    } else if b == 87 || b == 119 {
        22
    } else if b == 88 || b == 120 {
        23
    } else if b == 89 || b == 121 {
        24
    } else if b == 90 || b == 122 {
        25
    } else if b == 33 {
        26
    } else if b == 36 {
        27
    } else if b == 38 {
        28
    } else if b == 39 {
        29
    } else if b == 40 {
        30
    } else if b == 41 {
        31
    } else if b == 42 {
        32
    } else if b == 43 {
        33
    } else if b == 44 {
        34
    } else if b == 59 {
        35
    } else if b == 61 {
        36
    } else if b == 58 {
        37
    } else if b == 37 {
        38
    } else if b == 45 {
        39
    } else if b == 46 {
        40
    } else if b == 95 {
        41
    } else if b == 126 {
        42
    } else if 48 <= b && b <= 57 {
        (43 + (b - 48)) as u8
    } else {
        0
    }
}

/// The class of the `.` byte; only `.` folds to it.
pub const DOT_CLASS: u8 = 40;

/// The `.` byte itself.
pub const DOT_BYTE: u8 = 46;

/// A byte string folded classwise.
pub open spec fn classes(s: Seq<u8>) -> Seq<u8> {
    s.map_values(|b: u8| cls(b))
}

pub broadcast proof fn lemma_classes_len(s: Seq<u8>)
    ensures
        (#[trigger] classes(s)).len() == s.len(),
{
}

pub broadcast proof fn lemma_classes_index(s: Seq<u8>, i: int)
    requires
        0 <= i < s.len(),
    ensures
        #[trigger] classes(s)[i] == cls(s[i]),
{
}

/// Only the `.` byte folds to `DOT_CLASS`.
pub broadcast proof fn lemma_dot_class(b: u8)
    ensures
        (#[trigger] cls(b) == DOT_CLASS) <==> b == DOT_BYTE,
{
}

/// The class a byte folds to, as a trie edge index.
pub fn char2idx(b: u8) -> (r: usize)
    ensures
        r == cls(b) as usize,
        r < 53,
{
    if 65 <= b && b <= 90 {
        // 'A'..='Z'
        (b - 65) as usize
    } else if 97 <= b && b <= 122 {
        // 'a'..='z'
        (b - 97) as usize
    } else if 48 <= b && b <= 57 {
        // '0'..='9'
        (43 + (b - 48)) as usize
    } else {
        match b {
            33 => 26,
            36 => 27,
            38 => 28,
            39 => 29,
            40 => 30,
            41 => 31,
            42 => 32,
            43 => 33,
            44 => 34,
            59 => 35,
            61 => 36,
            58 => 37,
            37 => 38,
            45 => 39,
            46 => 40,
            95 => 41,
            126 => 42,
            _ => 0,
        }
    }
}

} // verus!
