//! Specification-level semantics of the rule kinds, shared by the engines.
//!
//! The automaton engine folds every byte to its alphabet class before
//! matching, so its rules are kept as a map from class strings to
//! annotations. The hash-backed engines compare exact and domain rules byte
//! for byte, so their rules are kept as a set of byte strings; only their
//! substring rules go through the automaton's class map.

use crate::alphabet::DOT_BYTE;
use crate::alphabet::DOT_CLASS;
use crate::MatchType;
use vstd::prelude::*;

verus! {

/// `p` occurs in `q` as a contiguous substring starting at `i`.
pub open spec fn occurs_at(p: Seq<u8>, q: Seq<u8>, i: int) -> bool {
    0 <= i && i + p.len() <= q.len() && q.subrange(i, i + p.len()) == p
}

/// `p` occurs somewhere in `q` as a contiguous substring.
pub open spec fn is_substring(p: Seq<u8>, q: Seq<u8>) -> bool {
    exists|i: int| occurs_at(p, q, i)
}

/// One stored automaton annotation, matched against the folded query `cq`.
/// The stored key `k` is a class string: a `Domain` key already carries its
/// leading dot, so it matches any query ending in it, while a `Full` key
/// matches only the whole query and a `SubStr` key matches anywhere.
pub open spec fn entry_matches(k: Seq<u8>, t: MatchType, cq: Seq<u8>) -> bool {
    match t {
        MatchType::SubStr(b) => b && is_substring(k, cq),
        MatchType::Domain(b) => b && k.is_suffix_of(cq),
        MatchType::Full(b) => b && k == cq,
    }
}

/// The automaton's annotation map after inserting the class string `k` under
/// kind `t`. A `Domain` insertion stores an exact annotation on the bare key
/// and the domain annotation on the dot-prefixed key; other kinds store their
/// annotation on the bare key. Later insertions overwrite earlier annotations
/// on the same key.
pub open spec fn ac_step(
    m: Map<Seq<u8>, MatchType>,
    k: Seq<u8>,
    t: MatchType,
) -> Map<Seq<u8>, MatchType> {
    match t {
        MatchType::Domain(b) => m.insert(k, MatchType::Full(true)).insert(
            seq![DOT_CLASS] + k,
            MatchType::Domain(b),
        ),
        _ => m.insert(k, t),
    }
}

/// Whether some annotation in the map matches the folded query.
pub open spec fn ac_matches(m: Map<Seq<u8>, MatchType>, cq: Seq<u8>) -> bool {
    exists|k: Seq<u8>| #[trigger] m.contains_key(k) && entry_matches(k, m[k], cq)
}

/// The exact-rule table of a hash-backed engine after inserting the byte
/// string `p` under kind `t`: substring rules go elsewhere, a domain rule
/// stores the bare and the dot-prefixed pattern, an exact rule the bare one.
pub open spec fn table_step(tbl: Set<Seq<u8>>, p: Seq<u8>, t: MatchType) -> Set<Seq<u8>> {
    match t {
        MatchType::SubStr(_) => tbl,
        MatchType::Domain(_) => tbl.insert(p).insert(seq![DOT_BYTE] + p),
        MatchType::Full(_) => tbl.insert(p),
    }
}

/// Whether a stored exact-rule byte string accounts for the query `q`: it is
/// the whole of `q`, or a suffix of `q` that starts with the `.` byte.
pub open spec fn table_entry_matches(s: Seq<u8>, q: Seq<u8>) -> bool {
    s == q || (s.len() > 0 && s[0] == DOT_BYTE && s.is_suffix_of(q))
}

/// Whether some stored exact-rule byte string accounts for the query `q`.
pub open spec fn table_matches(tbl: Set<Seq<u8>>, q: Seq<u8>) -> bool {
    exists|s: Seq<u8>| #[trigger] tbl.contains(s) && table_entry_matches(s, q)
}

} // verus!
