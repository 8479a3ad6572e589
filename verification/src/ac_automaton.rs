//! The suffix automaton over reversed domain strings, and the hybrid engine
//! that pairs it with a rolling-hash table.
//!
//! Patterns are inserted back to front, so domains sharing a registrable
//! suffix share trie paths. `build` turns the trie into a deterministic
//! automaton: every absent edge is filled with a fallback edge to the state
//! of the longest trie suffix, and each state learns whether any suffix of
//! its path carries a substring rule. A query then walks the query string
//! back to front in one pass.

use crate::alphabet::char2idx;
use crate::alphabet::classes;
use crate::alphabet::cls;
use crate::alphabet::DOT_BYTE;
use crate::alphabet::DOT_CLASS;
use crate::enabled;
use crate::matching::ac_matches;
use crate::matching::table_entry_matches;
use crate::matching::table_matches;
use crate::matching::table_step;
use crate::matching::ac_step;
use crate::matching::entry_matches;
use crate::matching::is_substring;
use crate::matching::occurs_at;
use crate::trie_theory::edges_wf;
use crate::trie_theory::in_trie;
use crate::trie_theory::lemma_in_trie_prefix;
use crate::trie_theory::lemma_lsuf_fail_step;
use crate::trie_theory::lemma_lsuf_props;
use crate::trie_theory::lemma_lsuf_step;
use crate::trie_theory::lemma_proper_suffix;
use crate::trie_theory::lemma_reverse_cons;
use crate::trie_theory::lemma_reverse_reverse;
use crate::trie_theory::lemma_reverse_suffix_prefix;
use crate::trie_theory::lemma_reverse_take_skip;
use crate::trie_theory::lemma_skip_is_suffix;
use crate::trie_theory::lemma_suffix_of_lsuf;
use crate::trie_theory::lemma_suffix_trans;
use crate::trie_theory::lemma_walk_add_edge;
use crate::trie_theory::lemma_walk_append;
use crate::trie_theory::lemma_walk_push_row;
use crate::trie_theory::lsuf;
use crate::trie_theory::node_at;
use crate::trie_theory::path_wf;
use crate::trie_theory::walk;
use crate::trie_theory::Edges;
use crate::rolling::lemma_rhash_skip_step;
use crate::rolling::rhash;
use crate::rolling::rhash_step;
use crate::rolling::rolling_step;
use crate::DomainMatcher;
use crate::MatchType;
use std::collections::HashMap;
use vstd::prelude::*;
use vstd::seq_lib::*;
use vstd::set_lib::lemma_int_range;
use vstd::set_lib::lemma_len_subset;
use vstd::set_lib::set_int_range;
use vstd::string::StringSliceAdditionalSpecFns;

verus! {

/// The hybrid engine: exact and domain rules go to a rolling-hash table of
/// collision buckets, substring rules to an internal suffix automaton.
pub struct HybridMatcher {
    ac: ACAutomaton,
    map: HashMap<u32, Vec<Vec<u8>>>,
    built_tag: Ghost<bool>,
}

impl HybridMatcher {
    /// The byte strings held by the hash table.
    pub closed spec fn table(&self) -> Set<Seq<u8>> {
        Set::new(
            |s: Seq<u8>|
                exists|h: u32, idx: int|
                    #![trigger self.map@[h]@[idx]]
                    self.map@.contains_key(h) && 0 <= idx < self.map@[h]@.len()
                        && self.map@[h]@[idx]@ == s,
        )
    }

    /// The internal automaton's annotation map (its substring rules).
    pub closed spec fn sub_model(&self) -> Map<Seq<u8>, MatchType> {
        self.ac.model()
    }

    /// The internal automaton's node count.
    pub closed spec fn sub_nodes(&self) -> int {
        self.ac.nodes()
    }

    /// The internal automaton's nonempty trie paths.
    pub closed spec fn sub_paths(&self) -> Set<Seq<u8>> {
        self.ac.paths_set()
    }

    pub closed spec fn built_spec(&self) -> bool {
        self.built_tag@
    }

    pub closed spec fn hy_inv(&self) -> bool {
        &&& self.ac.ac_inv()
        &&& forall|h: u32, idx: int|
            self.map@.contains_key(h) && 0 <= idx < self.map@[h]@.len() ==> rhash(
                (#[trigger] self.map@[h]@[idx])@,
            ) == h
        &&& if self.built_tag@ {
            self.ac.nodes() > 0 ==> self.ac.built_spec()
        } else {
            !self.ac.built_spec()
        }
    }

    /// Whether some rule matches `q`: a stored exact or domain byte string
    /// accounts for it, or (when substring rules exist) the automaton
    /// matches it.
    pub open spec fn hy_matches_spec(&self, q: Seq<u8>) -> bool {
        table_matches(self.table(), q) || (self.sub_nodes() > 0 && ac_matches(
            self.sub_model(),
            classes(q),
        ))
    }

    /// The exact state change of one insertion.
    pub open spec fn hy_inserted(
        pre: HybridMatcher,
        post: HybridMatcher,
        p: Seq<u8>,
        t: MatchType,
    ) -> bool {
        &&& post.table() == table_step(pre.table(), p, t)
        &&& (t is SubStr ==> post.sub_model() == ac_step(pre.sub_model(), classes(p), t)
            && post.sub_paths() == pre.sub_paths().union(ins_paths(p, t)) && (post.sub_nodes() > 0
            <==> (pre.sub_nodes() > 0 || p.len() > 0)) && post.sub_nodes() >= pre.sub_nodes())
        &&& (!(t is SubStr) ==> post.sub_model() == pre.sub_model() && post.sub_nodes()
            == pre.sub_nodes() && post.sub_paths() == pre.sub_paths())
    }

    pub open spec fn hy_fresh(&self) -> bool {
        &&& self.table() == Set::<Seq<u8>>::empty()
        &&& self.sub_model() == Map::<Seq<u8>, MatchType>::empty()
        &&& self.sub_nodes() == 0
        &&& self.sub_paths() == Set::<Seq<u8>>::empty()
    }

    /// The hybrid engine's substring-node counter counts exactly its
    /// automaton's nonempty paths.
    pub proof fn lemma_hybrid_nodes_are_paths(h: HybridMatcher)
        requires
            h.hy_inv(),
        ensures
            h.sub_paths().finite(),
            h.sub_nodes() == h.sub_paths().len(),
    {
        ACAutomaton::lemma_nodes_are_paths(h.ac);
    }

    pub fn new(size: usize) -> (r: HybridMatcher)
        ensures
            r.hy_inv(),
            !r.built_spec(),
            r.hy_fresh(),
    {
        let r = HybridMatcher {
            ac: ACAutomaton::new(size),
            map: HashMap::new(),
            built_tag: Ghost(false),
        };
        proof {
            assert(r.table() =~= Set::<Seq<u8>>::empty());
        }
        r
    }

    /// Record one byte string in its hash bucket, unless it is already
    /// there.
    fn insert(&mut self, h: u32, s: Vec<u8>)
        requires
            old(self).hy_inv(),
            rhash(s@) == h,
        ensures
            final(self).hy_inv(),
            final(self).table() == old(self).table().insert(s@),
            final(self).sub_model() == old(self).sub_model(),
            final(self).sub_nodes() == old(self).sub_nodes(),
            final(self).sub_paths() == old(self).sub_paths(),
            final(self).built_spec() == old(self).built_spec(),
    {
        broadcast use vstd::std_specs::hash::group_hash_axioms;

        let ghost pre = *old(self);
        let ghost sv = s@;
        match self.map.remove(&h) {
            Some(mut v) => {
                let ghost vv = v@;
                if !bucket_contains(&v, &s) {
                    v.push(s);
                }
                self.map.insert(h, v);
                proof {
                    assert(self.map@ == pre.map@.remove(h).insert(h, v));
                    assert forall|s2: Seq<u8>| #[trigger] self.table().contains(s2) implies pre.table(
                    ).contains(s2) || s2 == sv by {
                        let (h2, idx) = choose|h2: u32, idx: int|
                            #![trigger self.map@[h2]@[idx]]
                            self.map@.contains_key(h2) && 0 <= idx < self.map@[h2]@.len()
                                && self.map@[h2]@[idx]@ == s2;
                        if h2 == h {
                            if idx < vv.len() {
                                assert(pre.map@[h]@[idx]@ == s2);
                            } else {
                                assert(s2 == sv);
                            }
                        } else {
                            assert(pre.map@[h2]@[idx]@ == s2);
                        }
                    }
                    assert forall|s2: Seq<u8>| pre.table().contains(s2) || s2 == sv implies #[trigger] self.table(
                    ).contains(s2) by {
                        if pre.table().contains(s2) {
                            let (h2, idx) = choose|h2: u32, idx: int|
                                #![trigger pre.map@[h2]@[idx]]
                                pre.map@.contains_key(h2) && 0 <= idx < pre.map@[h2]@.len()
                                    && pre.map@[h2]@[idx]@ == s2;
                            if h2 == h {
                                assert(self.map@[h]@[idx]@ == s2);
                            } else {
                                assert(self.map@[h2]@[idx]@ == s2);
                            }
                        } else {
                            if exists|idx: int|
                                0 <= idx < vv.len() && (#[trigger] vv[idx])@ == sv {
                                let idx = choose|idx: int|
                                    0 <= idx < vv.len() && (#[trigger] vv[idx])@ == sv;
                                assert(self.map@[h]@[idx]@ == sv);
                            } else {
                                assert(self.map@[h]@[v@.len() - 1]@ == sv);
                            }
                        }
                    }
                    assert(self.table() =~= pre.table().insert(sv));
                    assert(self.sub_model() == pre.sub_model());
                }
            },
            None => {
                let mut v: Vec<Vec<u8>> = Vec::new();
                v.push(s);
                self.map.insert(h, v);
                proof {
                    assert(self.map@ == pre.map@.insert(h, v));
                    assert forall|s2: Seq<u8>| #[trigger] self.table().contains(s2) implies pre.table(
                    ).contains(s2) || s2 == sv by {
                        let (h2, idx) = choose|h2: u32, idx: int|
                            #![trigger self.map@[h2]@[idx]]
                            self.map@.contains_key(h2) && 0 <= idx < self.map@[h2]@.len()
                                && self.map@[h2]@[idx]@ == s2;
                        if h2 == h {
                            assert(s2 == sv);
                        } else {
                            assert(pre.map@[h2]@[idx]@ == s2);
                        }
                    }
                    assert forall|s2: Seq<u8>| pre.table().contains(s2) || s2 == sv implies #[trigger] self.table(
                    ).contains(s2) by {
                        if pre.table().contains(s2) {
                            let (h2, idx) = choose|h2: u32, idx: int|
                                #![trigger pre.map@[h2]@[idx]]
                                pre.map@.contains_key(h2) && 0 <= idx < pre.map@[h2]@.len()
                                    && pre.map@[h2]@[idx]@ == s2;
                            assert(!pre.map@.contains_key(h) || true);
                            if h2 == h {
                                assert(false);
                            }
                            assert(self.map@[h2]@[idx]@ == s2);
                        } else {
                            assert(self.map@[h]@[0]@ == sv);
                        }
                    }
                    assert(self.table() =~= pre.table().insert(sv));
                    assert(self.sub_model() == pre.sub_model());
                }
            },
        }
    }
}

impl HybridMatcher {
    /// Whether the bucket holds exactly the tail of `s` that starts at
    /// `start`.
    fn bucket_has_suffix(v: &Vec<Vec<u8>>, s: &[u8], start: usize) -> (r: bool)
        requires
            start <= s@.len(),
        ensures
            r == exists|idx: int|
                0 <= idx < v@.len() && (#[trigger] v@[idx])@ == s@.skip(start as int),
    {
        let mut idx: usize = 0;
        while idx < v.len()
            invariant
                start <= s@.len(),
                idx <= v@.len(),
                forall|j: int| 0 <= j < idx ==> (#[trigger] v@[j])@ != s@.skip(start as int),
            decreases v@.len() - idx,
        {
            if HybridMatcher::suffix_eq(&v[idx], s, start) {
                return true;
            }
            idx = idx + 1;
        }
        false
    }

    /// Whether `a` equals the tail of `s` that starts at `start`.
    fn suffix_eq(a: &Vec<u8>, s: &[u8], start: usize) -> (r: bool)
        requires
            start <= s@.len(),
        ensures
            r == (a@ == s@.skip(start as int)),
    {
        let slen = s.len();
        if a.len() != slen - start {
            proof {
                assert(a@.len() != s@.skip(start as int).len());
            }
            return false;
        }
        let mut i: usize = 0;
        while i < a.len()
            invariant
                start <= s@.len(),
                slen == s@.len(),
                a@.len() == s@.len() - start,
                i <= a@.len(),
                forall|j: int| 0 <= j < i ==> a@[j] == s@[start + j],
            decreases a@.len() - i,
        {
            if a[i] != s[start + i] {
                proof {
                    assert(a@[i as int] != s@.skip(start as int)[i as int]);
                }
                return false;
            }
            i = i + 1;
        }
        proof {
            assert(a@ =~= s@.skip(start as int));
        }
        true
    }

    /// Probe the table for the tail of `s` starting at `start`, whose
    /// rolling hash is `h`.
    fn probe(&self, h: u32, s: &[u8], start: usize) -> (r: bool)
        requires
            self.hy_inv(),
            start <= s@.len(),
            rhash(s@.skip(start as int)) == h,
        ensures
            r == self.table().contains(s@.skip(start as int)),
    {
        broadcast use vstd::std_specs::hash::group_hash_axioms;

        let ghost suffix = s@.skip(start as int);
        match self.map.get(&h) {
            Some(v) => {
                let r = HybridMatcher::bucket_has_suffix(v, s, start);
                proof {
                    if r {
                        let idx = choose|idx: int|
                            0 <= idx < v@.len() && (#[trigger] v@[idx])@ == suffix;
                        assert(self.map@[h]@[idx]@ == suffix);
                        assert(self.table().contains(suffix));
                    } else {
                        if self.table().contains(suffix) {
                            let (h2, idx) = choose|h2: u32, idx: int|
                                #![trigger self.map@[h2]@[idx]]
                                self.map@.contains_key(h2) && 0 <= idx < self.map@[h2]@.len()
                                    && self.map@[h2]@[idx]@ == suffix;
                            assert(rhash(self.map@[h2]@[idx]@) == h2);
                            assert(h2 == h);
                            assert(v@[idx]@ == suffix);
                        }
                    }
                }
                r
            },
            None => {
                proof {
                    if self.table().contains(suffix) {
                        let (h2, idx) = choose|h2: u32, idx: int|
                            #![trigger self.map@[h2]@[idx]]
                            self.map@.contains_key(h2) && 0 <= idx < self.map@[h2]@.len()
                                && self.map@[h2]@[idx]@ == suffix;
                        assert(rhash(self.map@[h2]@[idx]@) == h2);
                        assert(h2 == h);
                    }
                }
                false
            },
        }
    }
}

impl DomainMatcher for HybridMatcher {
    open spec fn inv(&self) -> bool {
        self.hy_inv()
    }

    open spec fn built(&self) -> bool {
        self.built_spec()
    }

    open spec fn matches_spec(&self, q: Seq<u8>) -> bool {
        self.hy_matches_spec(q)
    }

    open spec fn inserted(pre: Self, post: Self, p: Seq<u8>, t: MatchType) -> bool {
        HybridMatcher::hy_inserted(pre, post, p, t)
    }

    open spec fn fresh(&self) -> bool {
        self.hy_fresh()
    }

    open spec fn build_accepts(&self) -> bool {
        true
    }

    open spec fn same_rules(pre: Self, post: Self) -> bool {
        &&& post.table() == pre.table()
        &&& post.sub_model() == pre.sub_model()
        &&& post.sub_nodes() == pre.sub_nodes()
        &&& post.sub_paths() == pre.sub_paths()
    }

    fn reverse_insert(&mut self, input_string: &str, match_type: MatchType) {
        let bytes = input_string.as_bytes();
        let h = crate::rolling::rolling_hash(bytes);
        match match_type {
            MatchType::SubStr(_) => {
                self.ac.reverse_insert(input_string, match_type);
                proof {
                    assert(self.table() =~= old(self).table());
                }
            },
            MatchType::Domain(_) => {
                let bare = vstd::slice::slice_to_vec(bytes);
                let dot = dotted(bytes);
                let ghost dv = dot@;
                proof {
                    assert(dv.drop_first() =~= bytes@);
                    assert(dv[0] == DOT_BYTE);
                    assert(rhash(dv) == rhash_step(rhash(bytes@), DOT_BYTE));
                }
                self.insert(h, bare);
                let h2 = rolling_step(h, DOT_BYTE);
                self.insert(h2, dot);
            },
            MatchType::Full(_) => {
                let bare = vstd::slice::slice_to_vec(bytes);
                self.insert(h, bare);
            },
        }
    }

    fn reverse_query(&self, query_string: &str) -> (r: bool) {
        let ghost q = query_string.spec_bytes();
        let bytes = query_string.as_bytes();
        let mut h: u32 = 0;
        let mut i: usize = bytes.len();
        proof {
            assert(q.skip(q.len() as int) =~= Seq::<u8>::empty());
        }
        while i > 0
            invariant
                self.hy_inv(),
                self.built_spec(),
                q == query_string.spec_bytes(),
                bytes@ == q,
                i <= q.len(),
                h == rhash(q.skip(i as int)),
                forall|i0: int|
                    i <= i0 < q.len() ==> !(q[i0] == DOT_BYTE && self.table().contains(
                        #[trigger] q.skip(i0),
                    )),
            decreases i,
        {
            let b = bytes[i - 1];
            proof {
                lemma_rhash_skip_step(q, i as int);
            }
            h = rolling_step(h, b);
            if b == DOT_BYTE {
                if self.probe(h, bytes, i - 1) {
                    proof {
                        lemma_skip_is_suffix(q, i - 1);
                        let suffix = q.skip(i - 1);
                        assert(suffix[0] == q[i - 1]);
                        assert(table_entry_matches(suffix, q));
                        assert(table_matches(self.table(), q));
                    }
                    return true;
                }
            }
            proof {
                assert forall|i0: int| i - 1 <= i0 < q.len() implies !(q[i0] == DOT_BYTE
                    && self.table().contains(#[trigger] q.skip(i0))) by {
                    if i0 == i - 1 {
                        assert(q[i0] == bytes@[i - 1]);
                    }
                }
            }
            i = i - 1;
        }
        proof {
            assert(q.skip(0) =~= q);
        }
        if self.probe(h, bytes, 0) {
            proof {
                assert(table_entry_matches(q, q));
                assert(table_matches(self.table(), q));
            }
            return true;
        }
        let r = if !self.ac.empty() {
            self.ac.reverse_query(query_string)
        } else {
            false
        };
        proof {
            if !r {
                if table_matches(self.table(), q) {
                    let s2 = choose|s2: Seq<u8>|
                        #[trigger] self.table().contains(s2) && table_entry_matches(s2, q);
                    if s2 == q {
                        assert(false);
                    } else {
                        let i0 = q.len() - s2.len();
                        assert(s2 =~= q.skip(i0 as int));
                        assert(q[i0 as int] == s2[0]);
                        assert(false);
                    }
                }
            }
        }
        r
    }

    fn build(&mut self) -> (ok: bool) {
        if !self.ac.empty() {
            self.ac.build();
        }
        self.built_tag = Ghost(true);
        proof {
            assert(self.table() =~= old(self).table());
        }
        true
    }

    fn clear(&mut self) {
        self.ac.clear();
        self.map.clear();
        self.built_tag = Ghost(false);
        proof {
            assert(self.table() =~= Set::<Seq<u8>>::empty());
        }
    }
}

/// Whether the bucket already holds this byte string.
fn bucket_contains(v: &Vec<Vec<u8>>, s: &Vec<u8>) -> (r: bool)
    ensures
        r == exists|idx: int| 0 <= idx < v@.len() && (#[trigger] v@[idx])@ == s@,
{
    let mut idx: usize = 0;
    while idx < v.len()
        invariant
            idx <= v@.len(),
            forall|j: int| 0 <= j < idx ==> (#[trigger] v@[j])@ != s@,
        decreases v@.len() - idx,
    {
        if vec_u8_eq(&v[idx], s) {
            return true;
        }
        idx = idx + 1;
    }
    false
}

/// Byte-for-byte equality of two byte vectors.
fn vec_u8_eq(a: &Vec<u8>, b: &Vec<u8>) -> (r: bool)
    ensures
        r == (a@ == b@),
{
    if a.len() != b.len() {
        return false;
    }
    let mut i: usize = 0;
    while i < a.len()
        invariant
            a@.len() == b@.len(),
            i <= a@.len(),
            forall|j: int| 0 <= j < i ==> a@[j] == b@[j],
        decreases a@.len() - i,
    {
        if a[i] != b[i] {
            return false;
        }
        i = i + 1;
    }
    proof {
        assert(a@ =~= b@);
    }
    true
}

/// The dot-prefixed copy of a byte string, as stored for domain rules.
pub(crate) fn dotted(s: &[u8]) -> (r: Vec<u8>)
    ensures
        r@ == seq![DOT_BYTE] + s@,
{
    let mut r: Vec<u8> = Vec::new();
    r.push(DOT_BYTE);
    let mut i: usize = 0;
    while i < s.len()
        invariant
            i <= s@.len(),
            r@.len() == i + 1,
            r@[0] == DOT_BYTE,
            forall|j: int| 0 <= j < i ==> r@[j + 1] == s@[j],
        decreases s@.len() - i,
    {
        r.push(s[i]);
        i = i + 1;
    }
    proof {
        assert(r@ =~= seq![DOT_BYTE] + s@);
    }
    r
}

#[derive(Copy, Clone)]
enum EdgeType {
    TrieEdge(usize),
    FailEdge(usize),
}

spec fn etarget(e: EdgeType) -> int {
    match e {
        EdgeType::TrieEdge(v) => v as int,
        EdgeType::FailEdge(v) => v as int,
    }
}

/// A row of 53 absent edges.
fn fail_row() -> (r: [EdgeType; 53])
    ensures
        forall|c: int| 0 <= c < 53 ==> (#[trigger] r@[c]) == EdgeType::FailEdge(0),
        forall|c: int|
            0 <= c < 53 ==> ((#[trigger] r@[c]) matches EdgeType::FailEdge(v) && v == 0),
{
    let mut row = [EdgeType::FailEdge(0); 53];
    let mut i: usize = 0;
    while i < 53
        invariant
            i <= 53,
            forall|j: int| 0 <= j < i ==> (#[trigger] row@[j]) == EdgeType::FailEdge(0),
        decreases 53 - i,
    {
        row[i] = EdgeType::FailEdge(0);
        i = i + 1;
    }
    row
}

impl EdgeType {
    fn value(&self) -> (r: usize)
        ensures
            r as int == etarget(*self),
    {
        match self {
            EdgeType::TrieEdge(v) => *v,
            EdgeType::FailEdge(v) => *v,
        }
    }
}

/// A rule annotation that is either a real (enabled) rule or the sentinel.
pub open spec fn ann_ok(t: MatchType) -> bool {
    enabled(t) || t == MatchType::Full(false)
}

/// An enabled substring annotation.
pub open spec fn is_substr_on(t: MatchType) -> bool {
    match t {
        MatchType::SubStr(b) => b,
        _ => false,
    }
}

/// The trie path `t` ends at a node annotated with an enabled substring rule.
pub open spec fn sub_ann(k: Edges, anns: Seq<MatchType>, t: Seq<u8>) -> bool {
    in_trie(k, t) && 0 <= node_at(k, t) < anns.len() && is_substr_on(anns[node_at(k, t)])
}

/// Some suffix of `t` is a trie path with an enabled substring rule.
pub open spec fn has_sub_suffix(k: Edges, anns: Seq<MatchType>, t: Seq<u8>) -> bool {
    exists|u: Seq<u8>| u.is_suffix_of(t) && #[trigger] sub_ann(k, anns, u)
}

/// The trie paths one insertion lays down: every nonempty prefix of the
/// pattern's reversed class string, and the dot-extended path for a domain
/// rule.
pub open spec fn ins_paths(p: Seq<u8>, t: MatchType) -> Set<Seq<u8>> {
    let w = classes(p).reverse();
    Set::new(
        |u: Seq<u8>|
            (exists|i: int| 1 <= i <= w.len() && u == #[trigger] w.take(i)) || (t is Domain && u
                == w.push(DOT_CLASS)),
    )
}

/// Node `m` appears somewhere in the work queue.
spec fn q_contains(q: Seq<usize>, m: int) -> bool {
    exists|j: int| 0 <= j < q.len() && (#[trigger] q[j]) as int == m
}

/// Node `m` has been taken off the queue (the root counts as processed).
spec fn is_proc(q: Seq<usize>, h: int, m: int) -> bool {
    m == 0 || exists|j: int| 0 <= j < h && (#[trigger] q[j]) as int == m
}

/// A queue of distinct node ids out of `[1, bound]` cannot outgrow `bound`.
proof fn lemma_distinct_bound(q: Seq<usize>, bound: int)
    requires
        0 <= bound,
        forall|idx: int| 0 <= idx < q.len() ==> 1 <= (#[trigger] q[idx]) as int <= bound,
        forall|i1: int, i2: int|
            0 <= i1 < i2 < q.len() ==> (#[trigger] q[i1]) != (#[trigger] q[i2]),
    ensures
        q.len() <= bound,
{
    let qi = q.map_values(|x: usize| x as int);
    assert(qi.no_duplicates()) by {
        assert forall|i1: int, i2: int|
            0 <= i1 < qi.len() && 0 <= i2 < qi.len() && i1 != i2 implies qi[i1] != qi[i2] by {
            if i1 < i2 {
                assert(q[i1] != q[i2]);
            } else {
                assert(q[i2] != q[i1]);
            }
        }
    }
    qi.unique_seq_to_set();
    assert(qi.to_set().subset_of(set_int_range(1, bound + 1))) by {
        assert forall|x: int| qi.to_set().contains(x) implies set_int_range(
            1,
            bound + 1,
        ).contains(x) by {
            let idx = choose|idx: int| 0 <= idx < qi.len() && qi[idx] == x;
            assert(1 <= q[idx] as int <= bound);
        }
    }
    lemma_int_range(1, bound + 1);
    lemma_len_subset(qi.to_set(), set_int_range(1, bound + 1));
}

/// The suffix automaton: a trie over reversed patterns in an arena of
/// fixed-size edge rows, frozen by `build` into a deterministic automaton.
pub struct ACAutomaton {
    trie: Vec<[EdgeType; 53]>,
    fail: Vec<usize>,
    exists: Vec<MatchType>,
    substr: Vec<bool>,
    count: usize,
    built_tag: Ghost<bool>,
    node_paths: Ghost<Seq<Seq<u8>>>,
}

impl ACAutomaton {
    /// The explicitly inserted trie edges, as the path theory sees them.
    pub closed spec fn kids(&self) -> Edges {
        Seq::new(
            self.trie@.len(),
            |n: int|
                Seq::new(
                    53,
                    |c: int|
                        match self.trie@[n]@[c] {
                            EdgeType::TrieEdge(m) => Some(m as int),
                            EdgeType::FailEdge(_) => None,
                        },
                ),
        )
    }

    /// Number of trie nodes besides the root.
    pub closed spec fn nodes(&self) -> int {
        self.count as int
    }

    pub closed spec fn built_spec(&self) -> bool {
        self.built_tag@
    }

    pub closed spec fn wf_base(&self) -> bool {
        &&& self.fail@.len() == self.trie@.len()
        &&& self.exists@.len() == self.trie@.len()
        &&& self.substr@.len() == self.trie@.len()
        &&& edges_wf(self.kids(), self.count as int)
        &&& self.node_paths@.len() == self.count as int + 1
        &&& self.node_paths@[0] == Seq::<u8>::empty()
        &&& forall|n: int| 0 <= n <= self.count ==> path_wf(#[trigger] self.node_paths@[n])
        &&& forall|n: int| 1 <= n <= self.count ==> (#[trigger] self.node_paths@[n]).len() >= 1
        &&& forall|n: int|
            0 <= n <= self.count ==> walk(self.kids(), 0, #[trigger] self.node_paths@[n])
                == Some(n)
        &&& forall|n: int, c: int|
            0 <= n <= self.count && 0 <= c < 53 ==> ((#[trigger] self.kids()[n][c]) matches Some(m)
                ==> self.node_paths@[m] == self.node_paths@[n].push(c as u8))
        &&& forall|n: int|
            self.count < n < self.trie@.len() ==> (#[trigger] self.exists@[n])
                == MatchType::Full(false) && self.fail@[n] == 0 && self.substr@[n] == false
        &&& forall|n: int, c: int|
            self.count < n < self.trie@.len() && 0 <= c < 53 ==> (#[trigger] self.kids()[n][c])
                is None
        &&& forall|n: int| 0 <= n <= self.count ==> ann_ok(#[trigger] self.exists@[n])
        &&& forall|n: int|
            0 <= n <= self.count && (#[trigger] self.exists@[n]) is Domain ==> n >= 1
    }

    /// Before `build`: no fallback edge carries a target, no fail links, no
    /// substring flags.
    pub closed spec fn unbuilt_ok(&self) -> bool {
        &&& forall|n: int, c: int|
            0 <= n < self.trie@.len() && 0 <= c < 53 ==> ((#[trigger] self.trie@[n]@[c])
                matches EdgeType::FailEdge(v) ==> v == 0)
        &&& forall|n: int| 0 <= n < self.fail@.len() ==> (#[trigger] self.fail@[n]) == 0
        &&& forall|n: int| 0 <= n < self.substr@.len() ==> (#[trigger] self.substr@[n]) == false
    }

    /// Every edge of node `n` leads to the state of the longest trie suffix
    /// of `n`'s path extended by the edge's class.
    pub closed spec fn goto_ok(&self, n: int) -> bool {
        forall|c: int|
            0 <= c < 53 ==> etarget(#[trigger] self.trie@[n]@[c]) == node_at(
                self.kids(),
                lsuf(self.kids(), self.node_paths@[n].push(c as u8)),
            )
    }

    /// Node `n`'s substring flag says whether any suffix of its path carries
    /// a substring rule.
    pub closed spec fn sub_ok(&self, n: int) -> bool {
        self.substr@[n] == has_sub_suffix(self.kids(), self.exists@, self.node_paths@[n])
    }

    /// Node `n`'s fail link holds the state of the longest proper trie suffix
    /// of its path.
    pub closed spec fn fail_ok(&self, n: int) -> bool {
        &&& 0 <= self.fail@[n] <= self.count
        &&& self.node_paths@[self.fail@[n] as int] == lsuf(
            self.kids(),
            self.node_paths@[n].drop_first(),
        )
    }

    /// After `build`: every live node has correct automaton edges and
    /// substring flags.
    pub closed spec fn built_ok(&self) -> bool {
        forall|n: int|
            #![trigger self.goto_ok(n)]
            #![trigger self.sub_ok(n)]
            0 <= n <= self.count ==> self.goto_ok(n) && self.sub_ok(n)
    }

    /// The trie parent of node `n`.
    pub closed spec fn parent_of(&self, n: int) -> int {
        node_at(self.kids(), self.node_paths@[n].drop_last())
    }

    pub closed spec fn ac_inv(&self) -> bool {
        &&& self.wf_base()
        &&& if self.built_spec() {
            self.built_ok()
        } else {
            self.unbuilt_ok()
        }
    }

    /// The annotation map: forward class strings of inserted patterns, each
    /// with its last stored (enabled) annotation.
    pub closed spec fn model(&self) -> Map<Seq<u8>, MatchType> {
        Map::new(
            |key: Seq<u8>|
                in_trie(self.kids(), key.reverse()) && enabled(
                    self.exists@[node_at(self.kids(), key.reverse())],
                ),
            |key: Seq<u8>| self.exists@[node_at(self.kids(), key.reverse())],
        )
    }

    pub open spec fn ac_matches_spec(&self, q: Seq<u8>) -> bool {
        ac_matches(self.model(), classes(q))
    }

    /// The nonempty paths of the trie: the distinct nonempty reversed-class
    /// prefixes (and domain dot extensions) the insertions so far laid down.
    pub closed spec fn paths_set(&self) -> Set<Seq<u8>> {
        Set::new(|t: Seq<u8>| t.len() > 0 && in_trie(self.kids(), t))
    }

    /// The node counter counts exactly the trie's nonempty paths: each node
    /// besides the root owns one of them.
    pub proof fn lemma_nodes_are_paths(a: ACAutomaton)
        requires
            a.ac_inv(),
        ensures
            a.paths_set().finite(),
            a.nodes() == a.paths_set().len(),
    {
        broadcast use vstd::seq_lib::seq_to_set_is_finite;

        let tail = a.node_paths@.skip(1);
        assert(tail.no_duplicates()) by {
            assert forall|i: int, j: int|
                0 <= i < tail.len() && 0 <= j < tail.len() && i != j implies tail[i]
                != tail[j] by {
                assert(tail[i] == a.node_paths@[i + 1]);
                assert(tail[j] == a.node_paths@[j + 1]);
                assert(walk(a.kids(), 0, a.node_paths@[i + 1]) == Some(i + 1));
                assert(walk(a.kids(), 0, a.node_paths@[j + 1]) == Some(j + 1));
            }
        }
        tail.unique_seq_to_set();
        assert(a.paths_set() =~= tail.to_set()) by {
            assert forall|t: Seq<u8>| #[trigger] a.paths_set().contains(t) implies tail.to_set(
            ).contains(t) by {
                a.lemma_walk_gives_path(t);
                let n = node_at(a.kids(), t);
                assert(a.node_paths@[n] == t);
                assert(n >= 1) by {
                    if n == 0 {
                        assert(a.node_paths@[0].len() == 0);
                    }
                }
                assert(tail[n - 1] == t);
                assert(tail.contains(t));
            }
            assert forall|t: Seq<u8>| #[trigger] tail.to_set().contains(t) implies a.paths_set(
            ).contains(t) by {
                let k = choose|k: int| 0 <= k < tail.len() && tail[k] == t;
                assert(a.node_paths@[k + 1] == t);
                assert(walk(a.kids(), 0, a.node_paths@[k + 1]) == Some(k + 1));
                assert(a.node_paths@[k + 1].len() >= 1);
            }
        }
    }

    pub open spec fn fresh_spec(&self) -> bool {
        &&& self.model() == Map::<Seq<u8>, MatchType>::empty()
        &&& self.nodes() == 0
        &&& self.paths_set() == Set::<Seq<u8>>::empty()
    }

    /// The exact state change of one insertion: the annotation map moves by
    /// `ac_step` on the pattern's classes, and the node count is positive
    /// exactly when something forced a node into the trie.
    pub open spec fn ac_inserted(
        pre: ACAutomaton,
        post: ACAutomaton,
        p: Seq<u8>,
        t: MatchType,
    ) -> bool {
        &&& post.model() == ac_step(pre.model(), classes(p), t)
        &&& post.paths_set() == pre.paths_set().union(ins_paths(p, t))
        &&& (post.nodes() > 0 <==> (pre.nodes() > 0 || p.len() > 0 || t is Domain))
        &&& post.nodes() >= pre.nodes()
    }

    /// A walk from a live node lands on the node whose path extends the
    /// start's path by the consumed string.
    proof fn lemma_path_of_walk(&self, n: int, m: int, t: Seq<u8>)
        requires
            self.wf_base(),
            0 <= n <= self.count,
            walk(self.kids(), n, t) == Some(m),
        ensures
            0 <= m <= self.count,
            self.node_paths@[m] == self.node_paths@[n] + t,
        decreases t.len(),
    {
        let k = self.kids();
        if t.len() == 0 {
            assert(self.node_paths@[n] + t =~= self.node_paths@[n]);
        } else {
            match k[n][t[0] as int] {
                Some(m2) => {
                    assert(self.node_paths@[m2] == self.node_paths@[n].push(t[0]));
                    self.lemma_path_of_walk(m2, m, t.drop_first());
                    assert(self.node_paths@[n].push(t[0]) + t.drop_first() =~= self.node_paths@[n]
                        + t);
                },
                None => {},
            }
        }
    }

    /// Two class strings reaching nodes are the nodes' paths; equal strings
    /// mean equal nodes.
    proof fn lemma_walk_gives_path(&self, t: Seq<u8>)
        requires
            self.wf_base(),
            in_trie(self.kids(), t),
        ensures
            0 <= node_at(self.kids(), t) <= self.count,
            self.node_paths@[node_at(self.kids(), t)] == t,
    {
        let m = node_at(self.kids(), t);
        self.lemma_path_of_walk(0, m, t);
        assert(self.node_paths@[0] + t =~= t);
    }

    pub fn new(size: usize) -> (r: ACAutomaton)
        ensures
            r.ac_inv(),
            !r.built_spec(),
            r.fresh_spec(),
    {
        let size = if size == 0 {
            1
        } else {
            size
        };
        let row = fail_row();
        let ghost paths0: Seq<Seq<u8>> = seq![Seq::<u8>::empty()];
        let r = ACAutomaton {
            trie: vec![row; size],
            fail: vec![0; size],
            exists: vec![MatchType::Full(false); size],
            substr: vec![false; size],
            count: 0,
            built_tag: Ghost(false),
            node_paths: Ghost(paths0),
        };
        proof {
            assert(forall|n: int| 0 <= n < size ==> r.trie@[n] == row);
            assert forall|key: Seq<u8>| !(#[trigger] r.model().dom().contains(key)) by {
                let t = key.reverse();
                if t.len() == 0 {
                    assert(node_at(r.kids(), t) == 0);
                } else {
                    if t[0] < 53 {
                        assert(r.kids()[0][t[0] as int] is None);
                    }
                    assert(walk(r.kids(), 0, t) is None);
                }
            }
            assert(r.model() =~= Map::<Seq<u8>, MatchType>::empty());
            assert forall|u: Seq<u8>| !(#[trigger] r.paths_set().contains(u)) by {
                if u.len() > 0 {
                    if u[0] < 53 {
                        assert(r.kids()[0][u[0] as int] is None);
                    }
                    assert(walk(r.kids(), 0, u) is None);
                }
            }
            assert(r.paths_set() =~= Set::<Seq<u8>>::empty());
        }
        r
    }

    /// The number of trie nodes besides the root.
    pub fn trie_node_count(&self) -> (r: usize)
        ensures
            r as int == self.nodes(),
    {
        self.count
    }

    /// Whether no pattern has ever forced a node into the trie.
    pub fn empty(&self) -> (r: bool)
        ensures
            r == (self.nodes() == 0),
            self.nodes() >= 0,
    {
        self.count == 0
    }

    /// Drop spare capacity from the arena's backing storage; a pure memory
    /// economy with no effect on any answer.
    pub fn shrink_to_fit(&mut self)
        requires
            old(self).ac_inv(),
        ensures
            final(self).ac_inv(),
            final(self).built_spec() == old(self).built_spec(),
            final(self).model() == old(self).model(),
            final(self).nodes() == old(self).nodes(),
            final(self).paths_set() == old(self).paths_set(),
            final(self).fresh_spec() == old(self).fresh_spec(),
            final(self).ac_matches_spec_eq(*old(self)),
    {
        compact_vec(&mut self.trie);
        compact_vec(&mut self.exists);
        compact_vec(&mut self.fail);
        compact_vec(&mut self.substr);
        proof {
            assert(self.kids() =~~= old(self).kids());
            assert(self.model() =~= old(self).model());
            assert(self.paths_set() =~= old(self).paths_set());
            assert(self.wf_base());
            if self.built_spec() {
                assert forall|n: int| 0 <= n <= self.count implies self.goto_ok(n)
                    && self.sub_ok(n) by {
                    assert(old(self).goto_ok(n) && old(self).sub_ok(n));
                    assert forall|c: int| 0 <= c < 53 implies etarget(
                        #[trigger] self.trie@[n]@[c],
                    ) == node_at(
                        self.kids(),
                        lsuf(self.kids(), self.node_paths@[n].push(c as u8)),
                    ) by {
                        assert(etarget(old(self).trie@[n]@[c]) == node_at(
                            old(self).kids(),
                            lsuf(old(self).kids(), old(self).node_paths@[n].push(c as u8)),
                        ));
                    }
                }
            }
        }
    }

    /// The two states answer every query alike.
    pub open spec fn ac_matches_spec_eq(&self, other: ACAutomaton) -> bool {
        forall|q: Seq<u8>| self.ac_matches_spec(q) == #[trigger] other.ac_matches_spec(q)
    }

    /// A sum capped at the largest representable size.
    pub closed spec fn byte_cap(x: int) -> int {
        if x > usize::MAX as int {
            usize::MAX as int
        } else {
            x
        }
    }

    /// What `runtime_memory_size` reports: each buffer's length times its
    /// element size, summed with the counter's own size, every step
    /// saturating at `usize::MAX`. A pure function of the state.
    pub closed spec fn memory_estimate(&self) -> int {
        let a = Self::byte_cap(self.exists@.len() as int * vstd::layout::size_of::<MatchType>() as int);
        let b = Self::byte_cap(self.fail@.len() as int * vstd::layout::size_of::<usize>() as int);
        let c = Self::byte_cap(self.trie@.len() as int * vstd::layout::size_of::<[EdgeType; 53]>() as int);
        let d = Self::byte_cap(self.substr@.len() as int * vstd::layout::size_of::<bool>() as int);
        Self::byte_cap(
            Self::byte_cap(Self::byte_cap(Self::byte_cap(a + b) + c) + d) + vstd::layout::size_of::<
                usize,
            >(),
        )
    }

    /// An estimate of the table storage held, in bytes: the saturated sum of
    /// the four buffers' byte sizes and the node counter's.
    pub fn runtime_memory_size(&self) -> (r: usize)
        ensures
            r as int == self.memory_estimate(),
    {
        let a = match self.exists.len().checked_mul(core::mem::size_of::<MatchType>()) {
            Some(v) => v,
            None => usize::MAX,
        };
        let b = match self.fail.len().checked_mul(core::mem::size_of::<usize>()) {
            Some(v) => v,
            None => usize::MAX,
        };
        let c = match self.trie.len().checked_mul(core::mem::size_of::<[EdgeType; 53]>()) {
            Some(v) => v,
            None => usize::MAX,
        };
        let d = match self.substr.len().checked_mul(core::mem::size_of::<bool>()) {
            Some(v) => v,
            None => usize::MAX,
        };
        a.saturating_add(b).saturating_add(c).saturating_add(d).saturating_add(
            core::mem::size_of::<usize>(),
        )
    }

    /// Walk one symbol from `node`, creating the trie edge and (if needed)
    /// a fresh node.
    fn ensure_child(&mut self, node: usize, idx: usize) -> (child: usize)
        requires
            old(self).wf_base(),
            old(self).unbuilt_ok(),
            !old(self).built_spec(),
            node as int <= old(self).count as int,
            idx < 53,
        ensures
            final(self).wf_base(),
            final(self).unbuilt_ok(),
            !final(self).built_spec(),
            1 <= child as int <= final(self).count,
            final(self).node_paths@[child as int] == old(self).node_paths@[node as int].push(
                idx as u8,
            ),
            in_trie(final(self).kids(), old(self).node_paths@[node as int].push(idx as u8)),
            child as int == node_at(
                final(self).kids(),
                old(self).node_paths@[node as int].push(idx as u8),
            ),
            forall|t: Seq<u8>|
                #[trigger] in_trie(old(self).kids(), t) ==> in_trie(final(self).kids(), t)
                    && node_at(final(self).kids(), t) == node_at(old(self).kids(), t),
            forall|t: Seq<u8>|
                #[trigger] in_trie(final(self).kids(), t) ==> in_trie(old(self).kids(), t) || t
                    == old(self).node_paths@[node as int].push(idx as u8),
            forall|n: int|
                0 <= n <= old(self).count ==> final(self).exists@[n] == old(self).exists@[n],
            forall|n: int|
                old(self).count < n <= final(self).count ==> final(self).exists@[n]
                    == MatchType::Full(false),
            forall|n: int|
                0 <= n <= old(self).count ==> final(self).node_paths@[n] == old(
                    self,
                ).node_paths@[n],
            old(self).count <= final(self).count,
            final(self).count as int <= old(self).count as int + 1,
            (final(self).count > old(self).count) == !in_trie(
                old(self).kids(),
                old(self).node_paths@[node as int].push(idx as u8),
            ),
    {
        let ghost pre = *old(self);
        let ghost target_path = pre.node_paths@[node as int].push(idx as u8);
        let e = self.trie[node][idx];
        if e.value() == 0 {
            proof {
                // the edge is absent: FailEdge(0) by unbuilt_ok, or TrieEdge(0)
                // which edges_wf rules out
                assert(pre.kids()[node as int][idx as int] is None);
                // the extended path is not yet a trie path
                lemma_walk_append(pre.kids(), 0, pre.node_paths@[node as int], seq![idx as u8]);
                assert(pre.node_paths@[node as int] + seq![idx as u8] =~= target_path);
                assert(walk(pre.kids(), node as int, seq![idx as u8]) is None);
                assert(!in_trie(pre.kids(), target_path));
            }
            let len_now = self.trie.len();
            assert(self.count < len_now);
            self.count = self.count + 1;
            let c = self.count;
            let ghost mid = *self;
            if len_now <= c {
                let newrow = fail_row();
                self.trie.push(newrow);
                self.fail.push(0);
                self.exists.push(MatchType::Full(false));
                self.substr.push(false);
                proof {
                    assert(self.trie@ == mid.trie@.push(newrow));
                    assert(self.trie@[mid.trie@.len() as int] == newrow);
                    assert(self.kids() =~~= mid.kids().push(
                        Seq::new(53, |c2: int| None::<int>),
                    ));
                    assert forall|t: Seq<u8>, n: int| 0 <= n < mid.kids().len() implies #[trigger] walk(
                        self.kids(),
                        n,
                        t,
                    ) == walk(mid.kids(), n, t) by {
                        lemma_walk_push_row(
                            mid.kids(),
                            pre.count as int,
                            Seq::new(53, |c2: int| None::<int>),
                            n,
                            t,
                        );
                    }
                }
            }
            let ghost grown = *self;
            proof {
                assert(grown.kids().len() == grown.trie@.len());
                assert(forall|t: Seq<u8>, n: int|
                    0 <= n < pre.kids().len() ==> #[trigger] walk(grown.kids(), n, t) == walk(
                        pre.kids(),
                        n,
                        t,
                    ));
                assert(c < grown.trie@.len());
                assert(forall|c2: int| 0 <= c2 < 53 ==> (#[trigger] grown.kids()[c as int][c2]) is None);
            }
            let mut row = self.trie[node];
            row[idx] = EdgeType::TrieEdge(c);
            self.trie[node] = row;
            self.node_paths = Ghost(self.node_paths@.push(target_path));
            proof {
                let kg = grown.kids();
                let kn = self.kids();
                assert(kn =~~= kg.update(
                    node as int,
                    kg[node as int].update(idx as int, Some(c as int)),
                ));
                assert(edges_wf(kg, pre.count as int));
                assert forall|t: Seq<u8>, n: int| 0 <= n <= pre.count as int implies #[trigger] walk(
                    kn,
                    n,
                    t,
                ) == (if walk(kg, n, t) is Some {
                    walk(kg, n, t)
                } else if t.len() > 0 && t.last() == idx as u8 && walk(kg, n, t.drop_last())
                    == Some(node as int) {
                    Some(c as int)
                } else {
                    None::<int>
                }) by {
                    lemma_walk_add_edge(
                        kg,
                        pre.count as int,
                        node as int,
                        idx as int,
                        c as int,
                        n,
                        t,
                    );
                }
                // the new path is reachable
                assert(walk(kn, 0, target_path) == Some(c as int)) by {
                    assert(walk(kg, 0, target_path) == walk(pre.kids(), 0, target_path));
                    assert(target_path.drop_last() =~= pre.node_paths@[node as int]);
                    assert(walk(kg, 0, target_path.drop_last()) == Some(node as int));
                    assert(target_path.last() == idx as u8);
                }
                // well-formedness of the new state
                assert(self.node_paths@.len() == self.count as int + 1);
                assert forall|n: int| 0 <= n <= self.count implies walk(kn, 0, #[trigger] self.node_paths@[n])
                    == Some(n) by {
                    if n < c as int {
                        assert(self.node_paths@[n] == pre.node_paths@[n]);
                        assert(walk(kg, 0, pre.node_paths@[n]) == Some(n));
                    } else {
                        assert(self.node_paths@[n] == target_path);
                    }
                }
                assert forall|n: int, c2: int|
                    0 <= n <= self.count && 0 <= c2 < 53 implies ((#[trigger] kn[n][c2])
                    matches Some(m) ==> self.node_paths@[m] == self.node_paths@[n].push(
                    c2 as u8,
                )) by {
                    if n == node as int && c2 == idx as int {
                    } else if n < kg.len() {
                        assert(kn[n][c2] == kg[n][c2]);
                        if n <= pre.count as int {
                        } else {
                            assert(kg[n][c2] is None);
                        }
                    }
                }
                assert(edges_wf(kn, self.count as int));
                assert(self.wf_base());
                assert forall|n2: int, c2: int|
                    0 <= n2 < self.trie@.len() && 0 <= c2 < 53 implies ((
                #[trigger] self.trie@[n2]@[c2]) matches EdgeType::FailEdge(v) ==> v == 0) by {
                    if n2 == node as int && c2 == idx as int {
                        assert(self.trie@[n2]@[c2] == EdgeType::TrieEdge(c));
                    } else {
                        assert(self.trie@[n2]@[c2] == grown.trie@[n2]@[c2]);
                    }
                }
                assert(self.unbuilt_ok());
                // ensures about paths
                assert forall|t: Seq<u8>| #[trigger] in_trie(pre.kids(), t) implies in_trie(kn, t)
                    && node_at(kn, t) == node_at(pre.kids(), t) by {}
                assert forall|t: Seq<u8>| #[trigger] in_trie(kn, t) implies in_trie(pre.kids(), t)
                    || t == target_path by {
                    if !(walk(kg, 0, t) is Some) {
                        assert(t.len() > 0 && t.last() == idx as u8 && walk(kg, 0, t.drop_last())
                            == Some(node as int));
                        assert(walk(pre.kids(), 0, t.drop_last()) == Some(node as int));
                        pre.lemma_path_of_walk(0, node as int, t.drop_last());
                        assert(t.drop_last() == pre.node_paths@[node as int]);
                        assert(t =~= t.drop_last().push(t.last()));
                    }
                }
            }
            c
        } else {
            let child = e.value();
            proof {
                // a present edge is a trie edge; its target's path extends ours
                assert(pre.kids()[node as int][idx as int] matches Some(m) && m == child as int);
                assert(pre.node_paths@[child as int] == target_path);
                assert(walk(pre.kids(), 0, target_path) == Some(child as int));
            }
            child
        }
    }
}

impl ACAutomaton {
    /// Two annotation maps with the same members and values are the same.
    proof fn lemma_ann_map_eq(m1: Map<Seq<u8>, MatchType>, m2: Map<Seq<u8>, MatchType>)
        requires
            forall|key: Seq<u8>|
                #![trigger m1.dom().contains(key)]
                #![trigger m2.dom().contains(key)]
                m1.dom().contains(key) == m2.dom().contains(key) && (m1.dom().contains(key)
                    ==> m1[key] == m2[key]),
        ensures
            m1 == m2,
    {
        assert(m1 =~= m2);
    }

    /// Setting an enabled annotation on a live node inserts its reversed
    /// path into the annotation map.
    proof fn lemma_model_after_ann(pre: ACAutomaton, post: ACAutomaton, m: int, mt: MatchType)
        requires
            pre.wf_base(),
            post.kids() == pre.kids(),
            post.node_paths@ == pre.node_paths@,
            post.count == pre.count,
            post.exists@ == pre.exists@.update(m, mt),
            0 <= m <= pre.count,
            enabled(mt),
        ensures
            post.model() == pre.model().insert(pre.node_paths@[m].reverse(), mt),
    {
        let key0 = pre.node_paths@[m].reverse();
        let goal = pre.model().insert(key0, mt);
        lemma_reverse_reverse(pre.node_paths@[m]);
        assert forall|key: Seq<u8>|
            #![trigger post.model().dom().contains(key)]
            #![trigger goal.dom().contains(key)]
            post.model().dom().contains(key) == goal.dom().contains(key) && (post.model(
            ).dom().contains(key) ==> post.model()[key] == goal[key]) by {
            let t = key.reverse();
            lemma_reverse_reverse(key);
            if key == key0 {
                assert(t == pre.node_paths@[m]);
                assert(node_at(post.kids(), t) == m);
                assert(post.exists@[m] == mt);
            } else {
                if in_trie(pre.kids(), t) {
                    let n = node_at(pre.kids(), t);
                    pre.lemma_walk_gives_path(t);
                    assert(pre.node_paths@[n] == t);
                    if n == m {
                        assert(key == key0);
                    }
                    assert(post.exists@[n] == pre.exists@[n]);
                }
            }
        }
        ACAutomaton::lemma_ann_map_eq(post.model(), goal);
    }

    /// Record one pattern: walk its bytes in reverse, creating trie edges on
    /// demand, and annotate the terminal state; a domain rule additionally
    /// annotates the dot-extended state.
    fn insert_pattern(&mut self, input_string: &str, match_type: MatchType)
        requires
            old(self).ac_inv(),
            !old(self).built_spec(),
            enabled(match_type),
        ensures
            final(self).ac_inv(),
            !final(self).built_spec(),
            ACAutomaton::ac_inserted(
                *old(self),
                *final(self),
                input_string.spec_bytes(),
                match_type,
            ),
    {
        let ghost pre = *old(self);
        let bytes = input_string.as_bytes();
        let ghost p = input_string.spec_bytes();
        let ghost kseq = classes(p);
        let ghost w = classes(p).reverse();
        proof {
            assert(bytes@ == p);
            assert(path_wf(w)) by {
                assert(forall|i: int| 0 <= i < kseq.len() ==> (#[trigger] kseq[i]) < 53);
            }
        }
        let mut node: usize = 0;
        let mut i: usize = bytes.len();
        proof {
            assert(w.take(0) =~= Seq::<u8>::empty());
        }
        while i > 0
            invariant
                self.wf_base(),
                self.unbuilt_ok(),
                !self.built_spec(),
                bytes@ == p,
                kseq == classes(p),
                w == classes(p).reverse(),
                path_wf(w),
                w.len() == p.len(),
                i <= p.len(),
                bytes@.len() == p.len(),
                node as int <= self.count,
                self.node_paths@[node as int] == w.take(p.len() - i),
                in_trie(self.kids(), w.take(p.len() - i)),
                node as int == node_at(self.kids(), w.take(p.len() - i)),
                forall|t: Seq<u8>|
                    #[trigger] in_trie(pre.kids(), t) ==> in_trie(self.kids(), t) && node_at(
                        self.kids(),
                        t,
                    ) == node_at(pre.kids(), t),
                forall|t: Seq<u8>|
                    #[trigger] in_trie(self.kids(), t) ==> in_trie(pre.kids(), t)
                        || t.is_prefix_of(w.take(p.len() - i)),
                forall|n: int| 0 <= n <= pre.count ==> self.exists@[n] == pre.exists@[n],
                forall|n: int|
                    pre.count < n <= self.count ==> self.exists@[n] == MatchType::Full(false),
                forall|n: int| 0 <= n <= pre.count ==> self.node_paths@[n] == pre.node_paths@[n],
                pre.count <= self.count,
                (self.count > 0) == (pre.count > 0 || p.len() - i > 0),
            decreases i,
        {
            let ghost j = p.len() - i;
            let b = bytes[i - 1];
            let idx = char2idx(b);
            proof {
                assert(kseq.len() == p.len());
                assert(w[j as int] == kseq[p.len() - 1 - j]);
                assert(kseq[i - 1] == cls(p[i - 1]));
                assert(w[j as int] == cls(b));
                assert(w.take(j + 1) =~= w.take(j as int).push(w[j as int]));
            }
            let ghost before = *self;
            node = self.ensure_child(node, idx);
            proof {
                assert(self.node_paths@[node as int] == w.take(j + 1));
                // transitive path preservation
                assert forall|t: Seq<u8>| #[trigger] in_trie(self.kids(), t) implies in_trie(
                    pre.kids(),
                    t,
                ) || t.is_prefix_of(w.take(j + 1)) by {
                    if !in_trie(before.kids(), t) {
                        assert(t == w.take(j + 1));
                        assert(t.is_prefix_of(w.take(j + 1)));
                    } else {
                        if !in_trie(pre.kids(), t) {
                            assert(t.is_prefix_of(w.take(j as int)));
                            assert(t =~= w.take(j + 1).subrange(0, t.len() as int));
                        }
                    }
                }
                assert(self.count > 0);
            }
            i = i - 1;
        }
        proof {
            assert(w.take(p.len() as int) =~= w);
            lemma_reverse_reverse(kseq);
        }
        let ghost walked = *self;
        match match_type {
            MatchType::Domain(_) => {
                self.exists[node] = MatchType::Full(true);
                proof {
                    assert(self.kids() =~~= walked.kids());
                    ACAutomaton::lemma_model_after_ann(
                        walked,
                        *self,
                        node as int,
                        MatchType::Full(true),
                    );
                    assert(self.model() == walked.model().insert(kseq, MatchType::Full(true)));
                }
                let ghost mid1 = *self;
                let idx = char2idx(DOT_BYTE);
                let dchild = self.ensure_child(node, idx);
                let ghost mid2 = *self;
                proof {
                    // the new dot state (if any) carries the sentinel, so the
                    // annotation map is unchanged
                    assert forall|key: Seq<u8>|
                        #![trigger mid2.model().dom().contains(key)]
                        #![trigger mid1.model().dom().contains(key)]
                        mid2.model().dom().contains(key) == mid1.model().dom().contains(key) && (
                        mid2.model().dom().contains(key) ==> mid2.model()[key]
                            == mid1.model()[key]) by {
                        let t = key.reverse();
                        if in_trie(mid1.kids(), t) {
                            let n = node_at(mid1.kids(), t);
                            mid1.lemma_walk_gives_path(t);
                            assert(mid2.exists@[n] == mid1.exists@[n]);
                        } else {
                            if in_trie(mid2.kids(), t) {
                                assert(t == mid1.node_paths@[node as int].push(DOT_CLASS));
                                assert(node_at(mid2.kids(), t) == dchild as int);
                                assert(dchild as int > mid1.count);
                                assert(mid2.exists@[dchild as int] == MatchType::Full(false));
                            }
                        }
                    }
                    ACAutomaton::lemma_ann_map_eq(mid2.model(), mid1.model());
                    assert(mid2.node_paths@[dchild as int] == w.push(DOT_CLASS));
                    lemma_reverse_cons(DOT_CLASS, kseq);
                    assert((seq![DOT_CLASS] + kseq).reverse() == w.push(DOT_CLASS));
                }
                self.exists[dchild] = match_type;
                proof {
                    assert(self.kids() =~~= mid2.kids());
                    ACAutomaton::lemma_model_after_ann(mid2, *self, dchild as int, match_type);
                    lemma_reverse_reverse(seq![DOT_CLASS] + kseq);
                    assert(mid2.node_paths@[dchild as int].reverse() == seq![DOT_CLASS] + kseq);
                    assert(self.model() == walked.model().insert(kseq, MatchType::Full(true)).insert(
                        seq![DOT_CLASS] + kseq,
                        match_type,
                    ));
                    assert(self.count > 0);
                    // the dot child is the one path this phase can add
                    assert(mid1.kids() =~~= walked.kids());
                    assert(mid1.node_paths@[node as int] == w);
                    assert(self.paths_set() =~= walked.paths_set().insert(w.push(DOT_CLASS))) by {
                        assert forall|u: Seq<u8>| #[trigger] self.paths_set().contains(
                            u,
                        ) implies walked.paths_set().insert(w.push(DOT_CLASS)).contains(u) by {
                            assert(in_trie(mid2.kids(), u));
                            if in_trie(mid1.kids(), u) {
                                assert(in_trie(walked.kids(), u));
                            } else {
                                assert(u == w.push(DOT_CLASS));
                            }
                        }
                        assert forall|u: Seq<u8>|
                            walked.paths_set().insert(w.push(DOT_CLASS)).contains(
                                u,
                            ) implies #[trigger] self.paths_set().contains(u) by {
                            if u == w.push(DOT_CLASS) {
                                assert(in_trie(mid2.kids(), w.push(DOT_CLASS)));
                            } else {
                                assert(in_trie(mid1.kids(), u));
                                assert(in_trie(mid2.kids(), u));
                            }
                        }
                    }
                }
            },
            _ => {
                self.exists[node] = match_type;
                proof {
                    assert(self.kids() =~~= walked.kids());
                    ACAutomaton::lemma_model_after_ann(walked, *self, node as int, match_type);
                    assert(self.model() == walked.model().insert(kseq, match_type));
                    assert(self.paths_set() =~= walked.paths_set());
                }
            },
        }
        proof {
            assert forall|key: Seq<u8>|
                #![trigger walked.model().dom().contains(key)]
                #![trigger pre.model().dom().contains(key)]
                walked.model().dom().contains(key) == pre.model().dom().contains(key) && (
                walked.model().dom().contains(key) ==> walked.model()[key]
                    == pre.model()[key]) by {
                let t = key.reverse();
                if in_trie(pre.kids(), t) {
                    let n = node_at(pre.kids(), t);
                    pre.lemma_walk_gives_path(t);
                    assert(walked.exists@[n] == pre.exists@[n]);
                } else {
                    if in_trie(walked.kids(), t) {
                        let n = node_at(walked.kids(), t);
                        walked.lemma_walk_gives_path(t);
                        if n <= pre.count {
                            assert(walked.node_paths@[n] == pre.node_paths@[n]);
                            assert(walk(pre.kids(), 0, pre.node_paths@[n]) == Some(n));
                            assert(in_trie(pre.kids(), t));
                        }
                        assert(n > pre.count);
                        assert(walked.exists@[n] == MatchType::Full(false));
                    }
                }
            }
            ACAutomaton::lemma_ann_map_eq(walked.model(), pre.model());
            // the walk phase laid down exactly the nonempty prefixes of the
            // reversed class string
            let prefixes = Set::new(
                |u: Seq<u8>| exists|i2: int| 1 <= i2 <= w.len() && u == #[trigger] w.take(i2),
            );
            assert(walked.paths_set() =~= pre.paths_set().union(prefixes)) by {
                assert forall|u: Seq<u8>| #[trigger] walked.paths_set().contains(
                    u,
                ) implies pre.paths_set().union(prefixes).contains(u) by {
                    if !in_trie(pre.kids(), u) {
                        assert(u.is_prefix_of(w));
                        assert(u =~= w.take(u.len() as int));
                        assert(prefixes.contains(u));
                    }
                }
                assert forall|u: Seq<u8>| pre.paths_set().union(prefixes).contains(
                    u,
                ) implies #[trigger] walked.paths_set().contains(u) by {
                    if pre.paths_set().contains(u) {
                        assert(in_trie(walked.kids(), u));
                    } else {
                        let i2 = choose|i2: int| 1 <= i2 <= w.len() && u == #[trigger] w.take(i2);
                        assert(in_trie(walked.kids(), w));
                        lemma_in_trie_prefix(walked.kids(), w, i2);
                    }
                }
            }
            if match_type is Domain {
                assert(ins_paths(p, match_type) =~= prefixes.insert(w.push(DOT_CLASS)));
                assert(self.paths_set() =~= pre.paths_set().union(ins_paths(p, match_type)));
            } else {
                assert(ins_paths(p, match_type) =~= prefixes);
                assert(self.paths_set() =~= pre.paths_set().union(ins_paths(p, match_type)));
            }
        }
    }
}

impl ACAutomaton {
    /// Splitting the substring-suffix search at the longest proper trie
    /// suffix: some suffix of a live path carries a substring rule exactly
    /// when the path's own node does, or some suffix of the longest proper
    /// trie suffix of the path does.
    proof fn lemma_sub_suffix_step(&self, t: Seq<u8>)
        requires
            self.wf_base(),
            in_trie(self.kids(), t),
            t.len() > 0,
        ensures
            has_sub_suffix(self.kids(), self.exists@, t) == (sub_ann(self.kids(), self.exists@, t)
                || has_sub_suffix(
                self.kids(),
                self.exists@,
                lsuf(self.kids(), t.drop_first()),
            )),
    {
        let k = self.kids();
        let anns = self.exists@;
        let f = lsuf(k, t.drop_first());
        lemma_lsuf_props(k, t.drop_first());
        assert(t.drop_first().is_suffix_of(t)) by {
            assert(t.drop_first() =~= t.subrange(t.len() - t.drop_first().len(), t.len() as int));
        }
        if sub_ann(k, anns, t) {
            assert(t.is_suffix_of(t)) by {
                assert(t =~= t.subrange(0, t.len() as int));
            }
            assert(has_sub_suffix(k, anns, t));
        }
        if has_sub_suffix(k, anns, f) {
            let u = choose|u: Seq<u8>| u.is_suffix_of(f) && #[trigger] sub_ann(k, anns, u);
            lemma_suffix_trans(u, f, t.drop_first());
            lemma_suffix_trans(u, t.drop_first(), t);
            assert(has_sub_suffix(k, anns, t));
        }
        if has_sub_suffix(k, anns, t) {
            let u = choose|u: Seq<u8>| u.is_suffix_of(t) && #[trigger] sub_ann(k, anns, u);
            if u.len() == t.len() {
                assert(u =~= t);
                assert(sub_ann(k, anns, t));
            } else {
                lemma_proper_suffix(u, t);
                lemma_suffix_of_lsuf(k, t.drop_first(), u);
                assert(has_sub_suffix(k, anns, f));
            }
        }
    }

    /// Every non-root node hangs off its parent by its path's last class.
    proof fn lemma_parent(&self, m: int)
        requires
            self.wf_base(),
            1 <= m <= self.count,
        ensures
            0 <= self.parent_of(m) <= self.count,
            self.node_paths@[self.parent_of(m)] == self.node_paths@[m].drop_last(),
            in_trie(self.kids(), self.node_paths@[m].drop_last()),
            self.node_paths@[m].last() < 53,
            self.kids()[self.parent_of(m)][self.node_paths@[m].last() as int] == Some(m),
    {
        let k = self.kids();
        let t = self.node_paths@[m];
        assert(walk(k, 0, t) == Some(m));
        lemma_walk_append(k, 0, t.drop_last(), seq![t.last()]);
        assert(t.drop_last() + seq![t.last()] =~= t);
        assert(walk(k, 0, t.drop_last()) is Some);
        let par = self.parent_of(m);
        self.lemma_walk_gives_path(t.drop_last());
        assert(path_wf(t));
        assert(t.last() == t[t.len() - 1]);
        assert(walk(k, par, seq![t.last()]) == Some(m));
        assert(seq![t.last()].drop_first() =~= Seq::<u8>::empty());
        match k[par][t.last() as int] {
            Some(m2) => {
                assert(walk(k, m2, seq![t.last()].drop_first()) == Some(m2));
            },
            None => {},
        }
    }

    /// When the queue has been drained, every node has been processed:
    /// breadth-first discovery reaches each node through its parent chain.
    proof fn lemma_all_processed(&self, q: Seq<usize>, m: int)
        requires
            self.wf_base(),
            1 <= m <= self.count,
            forall|m2: int|
                1 <= m2 <= self.count ==> (#[trigger] q_contains(q, m2) <==> is_proc(
                    q,
                    q.len() as int,
                    self.parent_of(m2),
                )),
        ensures
            is_proc(q, q.len() as int, m),
        decreases self.node_paths@[m].len(),
    {
        self.lemma_parent(m);
        let par = self.parent_of(m);
        if par == 0 {
            assert(is_proc(q, q.len() as int, par));
        } else {
            assert(self.node_paths@[par].len() < self.node_paths@[m].len());
            self.lemma_all_processed(q, par);
        }
        assert(q_contains(q, m));
    }

    /// Freeze the trie into the automaton: breadth-first over the nodes,
    /// compute each state's substring flag out of its fail target, record
    /// fail links for its children, and replace each absent edge by a
    /// fallback edge copied from the fail target's row.
    #[verifier::rlimit(100)]
    fn run_build(&mut self)
        requires
            old(self).ac_inv(),
            !old(self).built_spec(),
        ensures
            final(self).ac_inv(),
            final(self).built_spec(),
            final(self).model() == old(self).model(),
            final(self).nodes() == old(self).nodes(),
            final(self).paths_set() == old(self).paths_set(),
    {
        let ghost pre = *old(self);
        let ghost k = pre.kids();
        let root_sub = match self.exists[0] {
            MatchType::SubStr(v) => v,
            _ => false,
        };
        self.substr[0] = root_sub;
        proof {
            assert(self.kids() =~~= k);
            assert(self.node_paths@[0] == Seq::<u8>::empty());
            assert(Seq::<u8>::empty().is_suffix_of(Seq::<u8>::empty())) by {
                assert(Seq::<u8>::empty() =~= Seq::<u8>::empty().subrange(0, 0));
            }
            if has_sub_suffix(self.kids(), self.exists@, Seq::<u8>::empty()) {
                let u = choose|u: Seq<u8>|
                    u.is_suffix_of(Seq::<u8>::empty()) && #[trigger] sub_ann(
                        self.kids(),
                        self.exists@,
                        u,
                    );
                assert(u =~= Seq::<u8>::empty());
                assert(is_substr_on(self.exists@[0]));
            }
            if is_substr_on(self.exists@[0]) {
                assert(node_at(self.kids(), Seq::<u8>::empty()) == 0);
                assert(sub_ann(self.kids(), self.exists@, Seq::<u8>::empty()));
                assert(has_sub_suffix(self.kids(), self.exists@, Seq::<u8>::empty()));
            }
            assert(self.sub_ok(0));
            assert forall|c: int| 0 <= c < 53 implies etarget(#[trigger] self.trie@[0]@[c])
                == node_at(self.kids(), lsuf(self.kids(), self.node_paths@[0].push(c as u8))) by {
                let t1 = self.node_paths@[0].push(c as u8);
                assert(t1.len() == 1 && t1[0] == c as u8);
                assert(t1.drop_first() =~= Seq::<u8>::empty());
                match self.kids()[0][c] {
                    Some(m) => {
                        assert(walk(self.kids(), 0, t1) == Some(m));
                        assert(lsuf(self.kids(), t1) == t1);
                        assert(self.trie@[0]@[c] is TrieEdge);
                    },
                    None => {
                        assert(walk(self.kids(), 0, t1) is None);
                        assert(!in_trie(self.kids(), t1));
                        assert(lsuf(self.kids(), t1) == lsuf(self.kids(), Seq::<u8>::empty()));
                        assert(node_at(self.kids(), Seq::<u8>::empty()) == 0);
                        assert(self.trie@[0]@[c] matches EdgeType::FailEdge(v) && v == 0);
                    },
                }
            }
            assert(self.goto_ok(0));
        }
        let mut queue: Vec<usize> = Vec::new();
        let mut i: usize = 0;
        while i < 53
            invariant
                pre.wf_base(),
                pre.unbuilt_ok(),
                self.exists@ == pre.exists@,
                self.fail@ == pre.fail@,
                self.trie@ == pre.trie@,
                self.count == pre.count,
                self.node_paths@ == pre.node_paths@,
                self.built_tag@ == pre.built_tag@,
                self.kids() == k,
                k == pre.kids(),
                self.wf_base(),
                self.substr@.len() == pre.substr@.len(),
                forall|n: int| 1 <= n < self.substr@.len() ==> (#[trigger] self.substr@[n]) == false,
                self.sub_ok(0),
                self.goto_ok(0),
                i <= 53,
                forall|idx: int|
                    0 <= idx < queue@.len() ==> 1 <= (#[trigger] queue@[idx]) as int <= self.count
                        && self.node_paths@[queue@[idx] as int].len() == 1 && (
                    self.node_paths@[queue@[idx] as int][0] as int) < i as int,
                forall|m: int|
                    1 <= m <= self.count && (#[trigger] self.node_paths@[m]).len() == 1 && (
                    self.node_paths@[m][0] as int) < i as int ==> q_contains(queue@, m),
                forall|i1: int, i2: int|
                    0 <= i1 < i2 < queue@.len() ==> (#[trigger] queue@[i1]) != (
                    #[trigger] queue@[i2]),
            decreases 53 - i,
        {
            let e = self.trie[0][i];
            if e.value() != 0 {
                let child = e.value();
                proof {
                    assert(self.trie@[0]@[i as int] == pre.trie@[0]@[i as int]);
                    assert(etarget(self.trie@[0]@[i as int]) != 0);
                    assert(self.trie@[0]@[i as int] is TrieEdge) by {
                        let ghost ed = self.trie@[0]@[i as int];
                        match ed {
                            EdgeType::TrieEdge(m) => {},
                            EdgeType::FailEdge(v) => {
                                assert(v == 0);
                            },
                        }
                    }
                    assert((self.kids()[0][i as int]) matches Some(m) && m == child as int);
                    assert(self.node_paths@[child as int] == self.node_paths@[0].push(i as u8));
                    assert(self.node_paths@[child as int].len() == 1);
                    assert(self.node_paths@[child as int][0] == i as u8);
                }
                let ghost q_old = queue@;
                queue.push(child);
                proof {
                    assert forall|m: int|
                        1 <= m <= self.count && (#[trigger] self.node_paths@[m]).len() == 1 && (
                        self.node_paths@[m][0] as int) < i as int + 1 implies q_contains(
                        queue@,
                        m,
                    ) by {
                        if (self.node_paths@[m][0] as int) < i as int {
                            let j = choose|j: int|
                                0 <= j < q_old.len() && (#[trigger] q_old[j]) as int == m;
                            assert(queue@[j] as int == m);
                        } else {
                            assert(self.node_paths@[m] =~= self.node_paths@[child as int]);
                            assert(walk(self.kids(), 0, self.node_paths@[m]) == Some(m));
                            assert(m == child as int);
                            assert(queue@[queue@.len() - 1] as int == m);
                        }
                    }
                }
            } else {
                proof {
                    assert(self.kids()[0][i as int] is None);
                    assert forall|m: int|
                        1 <= m <= self.count && (#[trigger] self.node_paths@[m]).len() == 1 && (
                        self.node_paths@[m][0] as int) < i as int + 1 implies q_contains(
                        queue@,
                        m,
                    ) by {
                        if (self.node_paths@[m][0] as int) == i as int {
                            assert(self.node_paths@[m] =~= self.node_paths@[0].push(i as u8));
                            assert(walk(self.kids(), 0, self.node_paths@[m]) == Some(m));
                        }
                    }
                }
            }
            i = i + 1;
        }
        let mut head: usize = 0;
        proof {
            lemma_distinct_bound(queue@, self.count as int);
            assert forall|m: int| 1 <= m <= self.count implies (#[trigger] q_contains(queue@, m)
                <==> is_proc(queue@, 0, self.parent_of(m))) by {
                self.lemma_parent(m);
                if self.node_paths@[m].len() == 1 {
                    assert(self.node_paths@[m].drop_last() =~= Seq::<u8>::empty());
                    assert(self.parent_of(m) == 0);
                    assert(self.node_paths@[m][0] == self.node_paths@[m].last());
                    assert(q_contains(queue@, m));
                } else {
                    let par = self.parent_of(m);
                    if par == 0 {
                        assert(self.node_paths@[m].drop_last().len() >= 1);
                        assert(self.node_paths@[0].len() == 0);
                    }
                    assert(!is_proc(queue@, 0, par));
                    if q_contains(queue@, m) {
                        let j = choose|j: int|
                            0 <= j < queue@.len() && (#[trigger] queue@[j]) as int == m;
                        assert(self.node_paths@[m].len() == 1);
                    }
                }
            }
            assert forall|idx: int| 0 <= idx < queue@.len() implies self.fail_ok(
                (#[trigger] queue@[idx]) as int,
            ) by {
                let m = queue@[idx] as int;
                assert(self.fail@[m] == 0);
                assert(self.node_paths@[m].drop_first() =~= Seq::<u8>::empty());
            }
        }
        while head < queue.len()
            invariant
                self.exists@ == pre.exists@,
                self.fail@.len() == pre.fail@.len(),
                self.substr@.len() == pre.substr@.len(),
                self.trie@.len() == pre.trie@.len(),
                self.count == pre.count,
                self.node_paths@ == pre.node_paths@,
                self.built_tag@ == pre.built_tag@,
                self.kids() == k,
                k == pre.kids(),
                self.wf_base(),
                head <= queue@.len(),
                queue@.len() <= self.count as int,
                self.sub_ok(0),
                self.goto_ok(0),
                forall|idx: int|
                    0 <= idx < queue@.len() ==> 1 <= (#[trigger] queue@[idx]) as int <= self.count,
                forall|i1: int, i2: int|
                    0 <= i1 < i2 < queue@.len() ==> (#[trigger] queue@[i1]) != (
                    #[trigger] queue@[i2]),
                forall|m: int|
                    1 <= m <= self.count ==> (#[trigger] q_contains(queue@, m) <==> is_proc(
                        queue@,
                        head as int,
                        self.parent_of(m),
                    )),
                forall|m: int|
                    0 <= m <= self.count && #[trigger] is_proc(queue@, head as int, m)
                        ==> self.goto_ok(m) && self.sub_ok(m),
                forall|idx: int|
                    0 <= idx < queue@.len() ==> self.fail_ok((#[trigger] queue@[idx]) as int),
                forall|idx: int|
                    0 <= idx < queue@.len() ==> (self.fail@[(#[trigger] queue@[idx]) as int] as int
                        == 0 || exists|j: int|
                        0 <= j < idx && (#[trigger] queue@[j]) as int == self.fail@[queue@[idx] as int] as int),
                forall|m: int, c: int|
                    1 <= m <= self.count && 0 <= c < 53 && !is_proc(queue@, head as int, m) ==> ((
                    #[trigger] self.trie@[m]@[c]) matches EdgeType::FailEdge(v) ==> v == 0),
                forall|m: int|
                    1 <= m <= self.count && !is_proc(queue@, head as int, m) ==> (
                    #[trigger] self.substr@[m]) == false,
                forall|m: int, c: int|
                    0 <= m <= self.count && 0 <= c < 53 && is_proc(queue@, head as int, m) ==> (
                    etarget(#[trigger] self.trie@[m]@[c]) == 0 || q_contains(
                        queue@,
                        etarget(self.trie@[m]@[c]),
                    )),
            decreases self.count as int + 1 - head as int,
        {
            let ghost h_entry = head as int;
            let node = queue[head];
            head = head + 1;
            let f = self.fail[node];
            proof {
                assert(1 <= node as int <= self.count);
                assert(self.fail_ok(node as int));
                if self.fail@[node as int] as int != 0 {
                    let j = choose|j: int|
                        0 <= j < h_entry && (#[trigger] queue@[j]) as int == self.fail@[node as int] as int;
                    assert(is_proc(queue@, h_entry, f as int));
                }
                assert(is_proc(queue@, h_entry, f as int));
                assert(self.goto_ok(f as int) && self.sub_ok(f as int));
                if is_proc(queue@, h_entry, node as int) {
                    let j = choose|j: int|
                        0 <= j < h_entry && (#[trigger] queue@[j]) as int == node as int;
                    assert(queue@[j] != queue@[h_entry]);
                }
                assert(!is_proc(queue@, h_entry, node as int));
            }
            let sub_here = match self.exists[node] {
                MatchType::SubStr(v) => v,
                _ => false,
            };
            let fsub = self.substr[f];
            let newsub = sub_here || fsub;
            self.substr[node] = newsub;
            proof {
                assert(self.kids() =~~= k);
                let t = self.node_paths@[node as int];
                assert(in_trie(self.kids(), t) && node_at(self.kids(), t) == node as int);
                assert(t.len() >= 1);
                self.lemma_sub_suffix_step(t);
                assert(self.node_paths@[f as int] == lsuf(self.kids(), t.drop_first()));
                assert(sub_ann(self.kids(), self.exists@, t) == sub_here);
                assert(self.sub_ok(node as int));
                assert forall|m: int|
                    0 <= m <= self.count && #[trigger] is_proc(queue@, h_entry, m) implies self.goto_ok(
                    m,
                ) && self.sub_ok(m) by {
                    assert(m != node as int);
                }
            }
            let ghost q_mid = queue@;
            let mut c: usize = 0;
            while c < 53
                invariant
                    self.exists@ == pre.exists@,
                    self.fail@.len() == pre.fail@.len(),
                    self.substr@.len() == pre.substr@.len(),
                    self.trie@.len() == pre.trie@.len(),
                    self.count == pre.count,
                    self.node_paths@ == pre.node_paths@,
                    self.built_tag@ == pre.built_tag@,
                    self.kids() == k,
                    k == pre.kids(),
                    self.wf_base(),
                    c <= 53,
                    head as int == h_entry + 1,
                    0 <= h_entry < queue@.len(),
                    queue@.len() <= self.count as int,
                    queue@.len() >= q_mid.len(),
                    forall|j: int| 0 <= j < q_mid.len() ==> (#[trigger] queue@[j]) == q_mid[j],
                    node == queue@[h_entry],
                    1 <= node as int <= self.count,
                    f as int == self.fail@[node as int] as int,
                    0 <= f as int <= self.count,
                    f as int != node as int,
                    self.node_paths@[f as int] == lsuf(
                        self.kids(),
                        self.node_paths@[node as int].drop_first(),
                    ),
                    !is_proc(queue@, h_entry, node as int),
                    self.goto_ok(f as int),
                    self.sub_ok(node as int),
                    self.sub_ok(0),
                    self.goto_ok(0),
                    forall|idx: int|
                        0 <= idx < queue@.len() ==> 1 <= (#[trigger] queue@[idx]) as int
                            <= self.count,
                    forall|i1: int, i2: int|
                        0 <= i1 < i2 < queue@.len() ==> (#[trigger] queue@[i1]) != (
                        #[trigger] queue@[i2]),
                    forall|m: int|
                        1 <= m <= self.count ==> (#[trigger] q_contains(queue@, m) <==> (is_proc(
                            queue@,
                            h_entry,
                            self.parent_of(m),
                        ) || (self.parent_of(m) == node as int && (self.node_paths@[m].last() as int)
                            < c as int))),
                    forall|m: int|
                        0 <= m <= self.count && #[trigger] is_proc(queue@, h_entry, m)
                            ==> self.goto_ok(m) && self.sub_ok(m),
                    forall|idx: int|
                        0 <= idx < queue@.len() ==> self.fail_ok((#[trigger] queue@[idx]) as int),
                    forall|idx: int|
                        0 <= idx < queue@.len() ==> (self.fail@[(#[trigger] queue@[idx]) as int] as int
                            == 0 || exists|j: int|
                            0 <= j < idx && (#[trigger] queue@[j]) as int == self.fail@[queue@[idx] as int] as int),
                    forall|m: int, c2: int|
                        1 <= m <= self.count && 0 <= c2 < 53 && !is_proc(queue@, h_entry, m) && m
                            != node as int ==> ((#[trigger] self.trie@[m]@[c2])
                            matches EdgeType::FailEdge(v) ==> v == 0),
                    forall|c2: int|
                        c as int <= c2 < 53 ==> ((#[trigger] self.trie@[node as int]@[c2])
                            matches EdgeType::FailEdge(v) ==> v == 0),
                    forall|c2: int|
                        0 <= c2 < c as int ==> etarget(#[trigger] self.trie@[node as int]@[c2])
                            == node_at(
                            self.kids(),
                            lsuf(self.kids(), self.node_paths@[node as int].push(c2 as u8)),
                        ),
                    forall|m: int|
                        1 <= m <= self.count && !is_proc(queue@, h_entry, m) && m != node as int
                            ==> (#[trigger] self.substr@[m]) == false,
                    forall|m: int, c2: int|
                        0 <= m <= self.count && 0 <= c2 < 53 && is_proc(queue@, h_entry, m) ==> (
                        etarget(#[trigger] self.trie@[m]@[c2]) == 0 || q_contains(
                            queue@,
                            etarget(self.trie@[m]@[c2]),
                        )),
                    forall|c2: int|
                        0 <= c2 < c as int ==> (etarget(#[trigger] self.trie@[node as int]@[c2])
                            == 0 || q_contains(queue@, etarget(self.trie@[node as int]@[c2]))),
                decreases 53 - c,
            {
                let ghost t_node = self.node_paths@[node as int];
                let ghost ext = t_node.push(c as u8);
                let e = self.trie[node][c];
                let t2 = self.trie[f][c].value();
                proof {
                    assert(etarget(self.trie@[f as int]@[c as int]) == node_at(
                        self.kids(),
                        lsuf(self.kids(), self.node_paths@[f as int].push(c as u8)),
                    ));
                    assert(t_node.drop_first().push(c as u8) =~= ext.drop_first());
                    lemma_lsuf_step(self.kids(), t_node.drop_first(), c as u8);
                    assert(lsuf(self.kids(), ext.drop_first()) == lsuf(
                        self.kids(),
                        self.node_paths@[f as int].push(c as u8),
                    ));
                    assert(t2 as int == node_at(self.kids(), lsuf(self.kids(), ext.drop_first())));
                    lemma_lsuf_props(self.kids(), ext.drop_first());
                    self.lemma_walk_gives_path(lsuf(self.kids(), ext.drop_first()));
                    assert(0 <= t2 as int <= self.count);
                    assert(self.node_paths@[t2 as int] == lsuf(self.kids(), ext.drop_first()));
                    // the target is reachable through the fail node's row, so
                    // it is the root or already queued
                    assert(is_proc(queue@, h_entry, f as int));
                    assert(t2 as int == 0 || q_contains(queue@, t2 as int));
                }
                if e.value() != 0 {
                    let child = e.value();
                    proof {
                        assert((self.kids()[node as int][c as int]) matches Some(m) && m
                            == child as int);
                        assert(self.node_paths@[child as int] == ext);
                        assert(1 <= child as int <= self.count);
                        assert(self.node_paths@[child as int].drop_last() =~= t_node);
                        assert(self.parent_of(child as int) == node as int);
                        assert(self.node_paths@[child as int].last() == c as u8);
                        if q_contains(queue@, child as int) {
                            assert(is_proc(queue@, h_entry, node as int) || (self.parent_of(
                                child as int,
                            ) == node as int && (self.node_paths@[child as int].last() as int)
                                < c as int));
                        }
                        assert(!q_contains(queue@, child as int));
                        assert(in_trie(self.kids(), ext));
                        assert(lsuf(self.kids(), ext) == ext);
                        assert(child as int != node as int) by {
                            if child as int == node as int {
                                assert(self.node_paths@[child as int].len() == t_node.len());
                            }
                        }
                    }
                    let ghost q_before = queue@;
                    let ghost fail_before = self.fail@;
                    self.fail[child] = t2;
                    queue.push(child);
                    proof {
                        assert(self.kids() =~~= k);
                        assert(queue@ == q_before.push(child));
                        assert(forall|j: int|
                            0 <= j < q_before.len() ==> (#[trigger] queue@[j]) == q_before[j]);
                        assert(self.wf_base());
                        lemma_distinct_bound(queue@, self.count as int);
                        assert forall|x: int| #[trigger] is_proc(queue@, h_entry, x) == is_proc(
                            q_before,
                            h_entry,
                            x,
                        ) by {
                            if is_proc(queue@, h_entry, x) && x != 0 {
                                let j = choose|j: int|
                                    0 <= j < h_entry && (#[trigger] queue@[j]) as int == x;
                                assert(q_before[j] as int == x);
                            }
                            if is_proc(q_before, h_entry, x) && x != 0 {
                                let j = choose|j: int|
                                    0 <= j < h_entry && (#[trigger] q_before[j]) as int == x;
                                assert(queue@[j] as int == x);
                            }
                        }
                        assert(self.fail_ok(child as int)) by {
                            assert(self.node_paths@[child as int].drop_first() =~= ext.drop_first());
                        }
                        assert forall|idx: int| 0 <= idx < queue@.len() implies self.fail_ok(
                            (#[trigger] queue@[idx]) as int,
                        ) by {
                            if idx < queue@.len() - 1 {
                                assert(queue@[idx] == q_before[idx]);
                                if queue@[idx] as int == child as int {
                                    assert(q_contains(q_before, child as int));
                                }
                                assert(queue@[idx] as int != child as int);
                                assert(self.fail@[queue@[idx] as int]
                                    == fail_before[queue@[idx] as int]);
                            }
                        }
                        assert forall|idx: int| 0 <= idx < queue@.len() implies (self.fail@[(
                        #[trigger] queue@[idx]) as int] as int == 0 || exists|j: int|
                            0 <= j < idx && (#[trigger] queue@[j]) as int == self.fail@[queue@[idx] as int] as int)
                            by {
                            if idx == queue@.len() - 1 {
                                if t2 as int != 0 {
                                    assert(q_contains(q_before, t2 as int));
                                    let j = choose|j: int|
                                        0 <= j < q_before.len() && (#[trigger] q_before[j]) as int
                                            == t2 as int;
                                    assert(queue@[j] as int == t2 as int);
                                }
                            } else {
                                assert(queue@[idx] == q_before[idx]);
                                if queue@[idx] as int == child as int {
                                    assert(q_contains(q_before, child as int));
                                }
                                assert(queue@[idx] as int != child as int);
                                assert(self.fail@[queue@[idx] as int]
                                    == fail_before[queue@[idx] as int]);
                                if fail_before[queue@[idx] as int] as int != 0 {
                                    let j = choose|j: int|
                                        0 <= j < idx && (#[trigger] q_before[j]) as int
                                            == fail_before[queue@[idx] as int] as int;
                                    assert(queue@[j] as int
                                        == self.fail@[queue@[idx] as int] as int);
                                }
                            }
                        }
                        assert forall|m: int| 1 <= m <= self.count implies (#[trigger] q_contains(
                            queue@,
                            m,
                        ) <==> (is_proc(queue@, h_entry, self.parent_of(m)) || (self.parent_of(m)
                            == node as int && (self.node_paths@[m].last() as int) < c as int
                            + 1))) by {
                            if q_contains(queue@, m) {
                                let j = choose|j: int|
                                    0 <= j < queue@.len() && (#[trigger] queue@[j]) as int == m;
                                if j == queue@.len() - 1 {
                                    assert(m == child as int);
                                } else {
                                    assert(q_contains(q_before, m));
                                }
                            }
                            if is_proc(queue@, h_entry, self.parent_of(m)) || (self.parent_of(m)
                                == node as int && (self.node_paths@[m].last() as int) < c as int
                                + 1) {
                                if self.parent_of(m) == node as int && (self.node_paths@[m].last()
                                    as int) == c as int {
                                    self.lemma_parent(m);
                                    assert(self.kids()[node as int][c as int] == Some(m));
                                    assert(m == child as int);
                                    assert(queue@[queue@.len() - 1] as int == m);
                                    assert(q_contains(queue@, m));
                                } else {
                                    assert(q_contains(q_before, m));
                                    let j = choose|j: int|
                                        0 <= j < q_before.len() && (#[trigger] q_before[j]) as int
                                            == m;
                                    assert(queue@[j] as int == m);
                                }
                            }
                        }
                    }
                } else {
                    proof {
                        assert(self.kids()[node as int][c as int] is None);
                        lemma_walk_append(self.kids(), 0, t_node, seq![c as u8]);
                        assert(t_node + seq![c as u8] =~= ext);
                        assert(walk(self.kids(), node as int, seq![c as u8]) is None);
                        assert(!in_trie(self.kids(), ext));
                        lemma_lsuf_fail_step(self.kids(), t_node, c as u8);
                    }
                    let ghost trie_before = self.trie@;
                    let mut row = self.trie[node];
                    row[c] = EdgeType::FailEdge(t2);
                    self.trie[node] = row;
                    proof {
                        assert(self.trie@ == trie_before.update(
                            node as int,
                            self.trie@[node as int],
                        ));
                        assert(forall|c2: int|
                            0 <= c2 < 53 && c2 != c as int ==> self.trie@[node as int]@[c2]
                                == trie_before[node as int]@[c2]);
                        assert(self.kids() =~~= k);
                        assert(etarget(self.trie@[node as int]@[c as int]) == t2 as int);
                        assert(lsuf(self.kids(), ext) == lsuf(
                            self.kids(),
                            lsuf(self.kids(), t_node.drop_first()).push(c as u8),
                        ));
                        assert(etarget(self.trie@[node as int]@[c as int]) == node_at(
                            self.kids(),
                            lsuf(self.kids(), ext),
                        ));
                        assert(self.wf_base());
                        // no node hangs off this class, so the discovery
                        // invariant only moves its bound
                        assert forall|m: int| 1 <= m <= self.count implies (#[trigger] q_contains(
                            queue@,
                            m,
                        ) <==> (is_proc(queue@, h_entry, self.parent_of(m)) || (self.parent_of(m)
                            == node as int && (self.node_paths@[m].last() as int) < c as int
                            + 1))) by {
                            if self.parent_of(m) == node as int && (self.node_paths@[m].last()
                                as int) == c as int {
                                self.lemma_parent(m);
                                assert(self.kids()[node as int][c as int] == Some(m));
                            }
                        }
                    }
                }
                c = c + 1;
            }
            proof {
                assert(self.goto_ok(node as int));
                assert forall|m: int| 0 <= m <= self.count implies (#[trigger] is_proc(
                    queue@,
                    head as int,
                    m,
                ) == (is_proc(queue@, h_entry, m) || m == node as int)) by {
                    if is_proc(queue@, head as int, m) && m != 0 {
                        let j = choose|j: int|
                            0 <= j < head as int && (#[trigger] queue@[j]) as int == m;
                        if j == h_entry {
                            assert(m == node as int);
                        } else {
                            assert(is_proc(queue@, h_entry, m));
                        }
                    }
                    if m == node as int {
                        assert(queue@[h_entry] as int == m);
                        assert(is_proc(queue@, head as int, m));
                    }
                    if is_proc(queue@, h_entry, m) {
                        assert(is_proc(queue@, head as int, m));
                    }
                }
                assert forall|m: int| 1 <= m <= self.count implies (#[trigger] q_contains(
                    queue@,
                    m,
                ) <==> is_proc(queue@, head as int, self.parent_of(m))) by {
                    self.lemma_parent(m);
                    assert(self.node_paths@[m].last() < 53);
                }
            }
        }
        proof {
            assert forall|m: int| 1 <= m <= self.count implies #[trigger] is_proc(
                queue@,
                queue@.len() as int,
                m,
            ) by {
                self.lemma_all_processed(queue@, m);
            }
            assert forall|n: int|
                #![trigger self.goto_ok(n)]
                #![trigger self.sub_ok(n)]
                0 <= n <= self.count implies self.goto_ok(n) && self.sub_ok(n) by {
                if n != 0 {
                    assert(is_proc(queue@, queue@.len() as int, n));
                    assert(is_proc(queue@, head as int, n));
                }
            }
            assert(self.built_ok());
        }
        let ghost done = *self;
        self.built_tag = Ghost(true);
        proof {
            assert(self.kids() =~~= done.kids());
            assert(self.kids() == pre.kids());
            assert(self.wf_base());
            assert forall|n: int|
                #![trigger self.goto_ok(n)]
                #![trigger self.sub_ok(n)]
                0 <= n <= self.count implies self.goto_ok(n) && self.sub_ok(n) by {
                assert(done.goto_ok(n) && done.sub_ok(n));
                assert forall|c: int| 0 <= c < 53 implies etarget(#[trigger] self.trie@[n]@[c])
                    == node_at(
                    self.kids(),
                    lsuf(self.kids(), self.node_paths@[n].push(c as u8)),
                ) by {
                    assert(etarget(done.trie@[n]@[c]) == node_at(
                        done.kids(),
                        lsuf(done.kids(), done.node_paths@[n].push(c as u8)),
                    ));
                }
            }
            assert(self.built_ok());
            assert forall|key: Seq<u8>|
                #![trigger self.model().dom().contains(key)]
                #![trigger pre.model().dom().contains(key)]
                self.model().dom().contains(key) == pre.model().dom().contains(key) && (self.model(
                ).dom().contains(key) ==> self.model()[key] == pre.model()[key]) by {
                let t = key.reverse();
                assert(self.kids() == pre.kids());
            }
            ACAutomaton::lemma_ann_map_eq(self.model(), pre.model());
            assert(self.paths_set() =~= pre.paths_set());
        }
    }
}

impl ACAutomaton {
    /// The substring-suffix search may be confined to the longest trie
    /// suffix: annotated suffixes are trie paths, and every trie-path suffix
    /// is a suffix of the longest one.
    proof fn lemma_sub_suffix_lsuf(k: Edges, anns: Seq<MatchType>, t: Seq<u8>)
        ensures
            has_sub_suffix(k, anns, t) == has_sub_suffix(k, anns, lsuf(k, t)),
    {
        lemma_lsuf_props(k, t);
        if has_sub_suffix(k, anns, t) {
            let u = choose|u: Seq<u8>| u.is_suffix_of(t) && #[trigger] sub_ann(k, anns, u);
            lemma_suffix_of_lsuf(k, t, u);
            assert(has_sub_suffix(k, anns, lsuf(k, t)));
        }
        if has_sub_suffix(k, anns, lsuf(k, t)) {
            let u = choose|u: Seq<u8>| u.is_suffix_of(lsuf(k, t)) && #[trigger] sub_ann(k, anns, u);
            lemma_suffix_trans(u, lsuf(k, t), t);
            assert(has_sub_suffix(k, anns, t));
        }
    }

    /// A substring hit during the backward walk witnesses a model entry.
    proof fn lemma_substr_hit(&self, q: Seq<u8>, j2: int)
        requires
            self.wf_base(),
            0 <= j2 <= classes(q).len(),
            has_sub_suffix(self.kids(), self.exists@, classes(q).reverse().take(j2)),
        ensures
            ac_matches(self.model(), classes(q)),
    {
        let k = self.kids();
        let cq = classes(q);
        let w = cq.reverse();
        let mm = self.model();
        let u = choose|u: Seq<u8>|
            u.is_suffix_of(w.take(j2)) && #[trigger] sub_ann(k, self.exists@, u);
        let key = u.reverse();
        lemma_reverse_reverse(u);
        self.lemma_walk_gives_path(u);
        assert(mm.contains_key(key));
        assert(mm[key] == self.exists@[node_at(k, u)]);
        lemma_reverse_take_skip(cq, j2);
        assert(w.take(j2) == cq.skip(cq.len() - j2).reverse());
        lemma_reverse_suffix_prefix(u, cq.skip(cq.len() - j2).reverse());
        lemma_reverse_reverse(cq.skip(cq.len() - j2));
        assert(key.is_prefix_of(cq.skip(cq.len() - j2)));
        assert(occurs_at(key, cq, cq.len() - j2)) by {
            assert(cq.subrange(cq.len() - j2, cq.len() - j2 + key.len()) =~= cq.skip(
                cq.len() - j2,
            ).subrange(0, key.len() as int));
            assert(key =~= cq.skip(cq.len() - j2).subrange(0, key.len() as int));
        }
        assert(is_substring(key, cq));
        assert(entry_matches(key, mm[key], cq));
    }

    /// A domain annotation reached on a pure trie path witnesses a model
    /// entry that is a suffix of the query.
    proof fn lemma_domain_hit(&self, q: Seq<u8>, j2: int)
        requires
            self.wf_base(),
            0 <= j2 <= classes(q).len(),
            in_trie(self.kids(), classes(q).reverse().take(j2)),
            self.exists@[node_at(self.kids(), classes(q).reverse().take(j2))] is Domain,
        ensures
            ac_matches(self.model(), classes(q)),
    {
        let k = self.kids();
        let cq = classes(q);
        let w = cq.reverse();
        let mm = self.model();
        let t1 = w.take(j2);
        let nd = node_at(k, t1);
        self.lemma_walk_gives_path(t1);
        let key = t1.reverse();
        lemma_reverse_reverse(t1);
        assert(mm.contains_key(key)) by {
            assert(ann_ok(self.exists@[nd]));
            assert(enabled(self.exists@[nd]));
        }
        assert(mm[key] == self.exists@[nd]);
        lemma_reverse_take_skip(cq, j2);
        lemma_reverse_reverse(cq.skip(cq.len() - j2));
        assert(key == cq.skip(cq.len() - j2));
        lemma_skip_is_suffix(cq, cq.len() - j2);
        assert(entry_matches(key, mm[key], cq));
    }

    /// If some model entry matches the query, then the backward walk hits a
    /// substring flag, a domain annotation on a pure trie path, or an exact
    /// annotation at the end.
    proof fn lemma_match_implies_hit(&self, q: Seq<u8>)
        requires
            self.wf_base(),
            ac_matches(self.model(), classes(q)),
        ensures
            (exists|j2: int|
                0 <= j2 <= classes(q).len() && has_sub_suffix(
                    self.kids(),
                    self.exists@,
                    #[trigger] classes(q).reverse().take(j2),
                )) || (exists|j2: int|
                0 <= j2 <= classes(q).len() && in_trie(
                    self.kids(),
                    #[trigger] classes(q).reverse().take(j2),
                ) && self.exists@[node_at(self.kids(), classes(q).reverse().take(j2))] is Domain)
                || (in_trie(self.kids(), classes(q).reverse()) && self.exists@[node_at(
                self.kids(),
                classes(q).reverse(),
            )] == MatchType::Full(true)),
    {
        let k = self.kids();
        let cq = classes(q);
        let w = cq.reverse();
        let mm = self.model();
        let key = choose|key: Seq<u8>|
            #[trigger] mm.contains_key(key) && entry_matches(key, mm[key], cq);
        let u = key.reverse();
        lemma_reverse_reverse(key);
        assert(in_trie(k, u));
        assert(mm[key] == self.exists@[node_at(k, u)]);
        match mm[key] {
            MatchType::SubStr(bb) => {
                let i0 = choose|i0: int| occurs_at(key, cq, i0);
                let j2 = cq.len() - i0;
                assert(0 <= j2 <= cq.len());
                assert(key.is_prefix_of(cq.skip(i0))) by {
                    assert(key =~= cq.skip(i0).subrange(0, key.len() as int));
                }
                lemma_reverse_suffix_prefix(u, cq.skip(i0).reverse());
                lemma_reverse_reverse(cq.skip(i0));
                lemma_reverse_reverse(u);
                assert(u.is_suffix_of(cq.skip(i0).reverse()));
                lemma_reverse_take_skip(cq, j2);
                assert(w.take(j2) == cq.skip(i0).reverse());
                assert(sub_ann(k, self.exists@, u)) by {
                    self.lemma_walk_gives_path(u);
                }
                assert(has_sub_suffix(k, self.exists@, w.take(j2)));
            },
            MatchType::Domain(bb) => {
                assert(key.is_suffix_of(cq));
                let j2 = key.len() as int;
                lemma_reverse_suffix_prefix(key, cq);
                assert(u.is_prefix_of(w));
                assert(w.take(j2) == u) by {
                    assert(u =~= w.take(j2));
                }
                assert(in_trie(k, w.take(j2)));
                assert(self.exists@[node_at(k, w.take(j2))] is Domain);
                assert(0 <= j2 <= cq.len());
            },
            MatchType::Full(bb) => {
                assert(key == cq);
                assert(u == w) by {
                    assert(cq.reverse() == w);
                }
                assert(in_trie(k, w));
                assert(self.exists@[node_at(k, w)] == MatchType::Full(true));
            },
        }
    }

    /// Walk the query's bytes in reverse through the frozen automaton. A
    /// substring flag anywhere on the way is a match; a domain annotation
    /// matches while the walk has used only trie edges; an exact annotation
    /// at the final state matches if the whole walk used trie edges.
    #[verifier::rlimit(60)]
    fn run_query(&self, query_string: &str) -> (r: bool)
        requires
            self.ac_inv(),
            self.built_spec(),
        ensures
            r == self.ac_matches_spec(query_string.spec_bytes()),
    {
        let ghost q = query_string.spec_bytes();
        let ghost cq = classes(q);
        let ghost w = cq.reverse();
        let ghost k = self.kids();
        let ghost mm = self.model();
        let bytes = query_string.as_bytes();
        proof {
            assert(path_wf(w)) by {
                assert(forall|i2: int| 0 <= i2 < cq.len() ==> (#[trigger] cq[i2]) < 53);
            }
            lemma_reverse_reverse(cq);
            assert(self.goto_ok(0) && self.sub_ok(0));
        }
        let mut node: usize = 0;
        let mut full_match = true;
        if self.substr[0] {
            proof {
                // an empty substring pattern matches everything
                assert(w.take(0) =~= Seq::<u8>::empty());
                assert(has_sub_suffix(k, self.exists@, w.take(0)));
                self.lemma_substr_hit(q, 0);
            }
            return true;
        }
        let mut i: usize = bytes.len();
        proof {
            assert(w.take(0) =~= Seq::<u8>::empty());
            assert(lsuf(k, w.take(0)) == w.take(0));
            assert(self.node_paths@[0] == Seq::<u8>::empty());
        }
        while i > 0
            invariant
                self.ac_inv(),
                self.built_spec(),
                q == query_string.spec_bytes(),
                bytes@ == q,
                cq == classes(q),
                w == cq.reverse(),
                k == self.kids(),
                mm == self.model(),
                path_wf(w),
                w.len() == q.len(),
                q.len() == bytes@.len(),
                i <= q.len(),
                node as int <= self.count,
                self.node_paths@[node as int] == lsuf(k, w.take(q.len() - i)),
                full_match == in_trie(k, w.take(q.len() - i)),
                forall|j2: int|
                    0 <= j2 <= q.len() - i ==> !has_sub_suffix(
                        k,
                        self.exists@,
                        #[trigger] w.take(j2),
                    ),
                forall|j2: int|
                    0 <= j2 <= q.len() - i ==> !(in_trie(k, #[trigger] w.take(j2))
                        && self.exists@[node_at(k, w.take(j2))] is Domain),
            decreases i,
        {
            let ghost j = q.len() - i;
            let b = bytes[i - 1];
            let idx = char2idx(b);
            proof {
                assert(cq.len() == q.len());
                assert(w[j as int] == cq[q.len() - 1 - j]);
                assert(cq[i - 1] == cls(q[i - 1]));
                assert(w[j as int] == cls(b));
                assert(w.take(j + 1) =~= w.take(j as int).push(w[j as int]));
                assert(self.goto_ok(node as int));
                lemma_lsuf_step(k, w.take(j as int), cls(b));
                // in_trie of the extension, related to the edge kind
                lemma_lsuf_props(k, w.take(j as int));
            }
            let e = self.trie[node][idx];
            let ghost old_node = node as int;
            let ghost old_full = full_match;
            match e {
                EdgeType::TrieEdge(v) => {
                    node = v;
                },
                EdgeType::FailEdge(v) => {
                    full_match = false;
                    node = v;
                },
            }
            proof {
                let t_old = self.node_paths@[old_node];
                let ext = t_old.push(cls(b));
                assert(etarget(e) == node_at(k, lsuf(k, ext)));
                assert(node as int == node_at(k, lsuf(k, ext)));
                assert(lsuf(k, w.take(j + 1)) == lsuf(k, ext));
                lemma_lsuf_props(k, ext);
                self.lemma_walk_gives_path(lsuf(k, ext));
                assert(self.node_paths@[node as int] == lsuf(k, w.take(j + 1)));
                assert(node as int <= self.count);
                // the full-path flag tracks trie membership of the prefix
                if old_full {
                    assert(t_old == w.take(j as int));
                    assert(node_at(k, t_old) == old_node) by {
                        assert(walk(k, 0, self.node_paths@[old_node]) == Some(old_node));
                    }
                    lemma_walk_append(k, 0, t_old, seq![cls(b)]);
                    assert(t_old + seq![cls(b)] =~= ext);
                    match k[old_node][cls(b) as int] {
                        Some(m) => {
                            assert(walk(k, old_node, seq![cls(b)]) == Some(m)) by {
                                assert(seq![cls(b)].drop_first() =~= Seq::<u8>::empty());
                            }
                            assert(in_trie(k, ext));
                            assert(e is TrieEdge);
                            assert(full_match);
                        },
                        None => {
                            assert(walk(k, old_node, seq![cls(b)]) is None);
                            assert(!in_trie(k, ext));
                            match e {
                                EdgeType::TrieEdge(m2) => {
                                    assert(k[old_node][cls(b) as int] == Some(m2 as int));
                                },
                                EdgeType::FailEdge(_) => {},
                            }
                            assert(e is FailEdge);
                            assert(!full_match);
                        },
                    }
                    assert(full_match == in_trie(k, w.take(j + 1)));
                } else {
                    assert(!in_trie(k, w.take(j as int)));
                    if in_trie(k, w.take(j + 1)) {
                        lemma_in_trie_prefix(k, w.take(j + 1), j as int);
                        assert(w.take(j + 1).take(j as int) =~= w.take(j as int));
                    }
                    assert(!in_trie(k, w.take(j + 1)));
                    assert(full_match == in_trie(k, w.take(j + 1)));
                }
            }
            if self.substr[node] {
                proof {
                    // some suffix of the walked-so-far string carries a
                    // substring rule
                    assert(self.sub_ok(node as int));
                    assert(has_sub_suffix(k, self.exists@, self.node_paths@[node as int]));
                    ACAutomaton::lemma_sub_suffix_lsuf(k, self.exists@, w.take(j + 1));
                    self.lemma_substr_hit(q, j + 1);
                }
                return true;
            }
            let is_domain = match self.exists[node] {
                MatchType::Domain(_) => true,
                _ => false,
            };
            if is_domain && full_match {
                proof {
                    // the walked-so-far string is itself a domain pattern
                    assert(lsuf(k, w.take(j + 1)) == w.take(j + 1));
                    assert(node as int == node_at(k, w.take(j + 1)));
                    self.lemma_domain_hit(q, j + 1);
                }
                return true;
            }
            proof {
                // no hit at this step: extend the no-hit history
                assert(!has_sub_suffix(k, self.exists@, lsuf(k, w.take(j + 1)))) by {
                    assert(self.sub_ok(node as int));
                }
                ACAutomaton::lemma_sub_suffix_lsuf(k, self.exists@, w.take(j + 1));
                assert(!has_sub_suffix(k, self.exists@, w.take(j + 1)));
                assert(!(in_trie(k, w.take(j + 1)) && self.exists@[node_at(k, w.take(j + 1))]
                    is Domain)) by {
                    if in_trie(k, w.take(j + 1)) {
                        assert(full_match);
                        assert(lsuf(k, w.take(j + 1)) == w.take(j + 1));
                        assert(node_at(k, w.take(j + 1)) == node as int);
                    }
                }
                assert forall|j2: int| 0 <= j2 <= q.len() - (i - 1) implies !has_sub_suffix(
                    k,
                    self.exists@,
                    #[trigger] w.take(j2),
                ) by {
                    if j2 <= j {
                        assert(!has_sub_suffix(k, self.exists@, w.take(j2)));
                    } else {
                        assert(j2 == j + 1);
                    }
                }
                assert forall|j2: int| 0 <= j2 <= q.len() - (i - 1) implies !(in_trie(
                    k,
                    #[trigger] w.take(j2),
                ) && self.exists@[node_at(k, w.take(j2))] is Domain) by {
                    if j2 <= j {
                    } else {
                        assert(j2 == j + 1);
                    }
                }
            }
            i = i - 1;
        }
        let r = match self.exists[node] {
            MatchType::Full(v) => full_match && v,
            _ => false,
        };
        proof {
            assert(w.take(q.len() as int) =~= w);
            if r {
                // the whole reversed query is a trie path whose node holds an
                // enabled exact annotation
                assert(in_trie(k, w));
                assert(lsuf(k, w) == w);
                assert(node as int == node_at(k, w));
                assert(mm.contains_key(cq)) by {
                    assert(cq.reverse() == w);
                }
                assert(mm[cq] == self.exists@[node as int]);
                assert(entry_matches(cq, mm[cq], cq));
                assert(ac_matches(mm, cq));
            } else {
                if ac_matches(mm, cq) {
                    self.lemma_match_implies_hit(q);
                    if in_trie(k, w) && self.exists@[node_at(k, w)] == MatchType::Full(true) {
                        assert(full_match);
                        assert(lsuf(k, w) == w);
                        assert(node as int == node_at(k, w));
                    }
                    assert(false);
                }
            }
        }
        r
    }
}

impl ACAutomaton {
    /// Discard all states, returning to a single unannotated root.
    fn reset(&mut self)
        ensures
            final(self).ac_inv(),
            !final(self).built_spec(),
            final(self).fresh_spec(),
    {
        self.count = 0;
        *self = ACAutomaton::new(1);
    }
}

impl DomainMatcher for ACAutomaton {
    open spec fn inv(&self) -> bool {
        self.ac_inv()
    }

    open spec fn built(&self) -> bool {
        self.built_spec()
    }

    open spec fn matches_spec(&self, q: Seq<u8>) -> bool {
        self.ac_matches_spec(q)
    }

    open spec fn inserted(pre: Self, post: Self, p: Seq<u8>, t: MatchType) -> bool {
        ACAutomaton::ac_inserted(pre, post, p, t)
    }

    open spec fn fresh(&self) -> bool {
        self.fresh_spec()
    }

    open spec fn build_accepts(&self) -> bool {
        true
    }

    open spec fn same_rules(pre: Self, post: Self) -> bool {
        &&& post.model() == pre.model()
        &&& post.nodes() == pre.nodes()
        &&& post.paths_set() == pre.paths_set()
    }

    fn reverse_insert(&mut self, input_string: &str, match_type: MatchType) {
        self.insert_pattern(input_string, match_type);
    }

    fn reverse_query(&self, query_string: &str) -> (r: bool) {
        self.run_query(query_string)
    }

    fn build(&mut self) -> (ok: bool) {
        self.run_build();
        true
    }

    fn clear(&mut self) {
        self.reset();
    }
}

/// Move a vector's contents into a backing buffer of exactly its length,
/// dropping any spare capacity.
fn compact_vec<T: Copy>(v: &mut Vec<T>)
    ensures
        final(v)@ == old(v)@,
{
    let mut nv: Vec<T> = Vec::with_capacity(v.len());
    let mut i: usize = 0;
    while i < v.len()
        invariant
            i <= v@.len(),
            v@ == old(v)@,
            nv@ == v@.take(i as int),
        decreases v@.len() - i,
    {
        nv.push(v[i]);
        proof {
            assert(nv@ =~= v@.take(i + 1));
        }
        i = i + 1;
    }
    proof {
        assert(nv@ =~= v@);
    }
    *v = nv;
}

} // verus!
