//! The minimal-perfect-hash engine: exact and domain rules go to a
//! deduplicated, sorted rule list indexed by a two-level static hash table,
//! substring rules to an internal suffix automaton.
//!
//! `build` partitions the rules into first-level buckets by their rolling
//! hash, then searches seeds per bucket, largest bucket first, until every
//! rule owns a distinct second-level slot. A lookup recomputes the slot and
//! confirms by exact comparison, so non-members can never be mistaken for
//! members.

use crate::ac_automaton::ACAutomaton;
use crate::alphabet::classes;
use crate::alphabet::DOT_BYTE;
use crate::matching::ac_matches;
use crate::matching::ac_step;
use crate::matching::table_entry_matches;
use crate::matching::table_matches;
use crate::matching::table_step;
use crate::mem_hash::mem_hash_spec;
use crate::mem_hash::MemHash;
use crate::rolling::lemma_rhash_skip_step;
use crate::rolling::rhash;
use crate::rolling::rolling_hash;
use crate::rolling::rolling_step;
use crate::trie_theory::lemma_skip_is_suffix;
use crate::DomainMatcher;
use crate::MatchType;
use vstd::prelude::*;
use vstd::string::StringSliceAdditionalSpecFns;

verus! {

/// Strict lexicographic order on byte strings.
pub open spec fn bytes_lt(a: Seq<u8>, b: Seq<u8>) -> bool
    decreases a.len(),
{
    if a.len() == 0 {
        b.len() > 0
    } else if b.len() == 0 {
        false
    } else if a[0] < b[0] {
        true
    } else if a[0] > b[0] {
        false
    } else {
        bytes_lt(a.drop_first(), b.drop_first())
    }
}

/// Exactly one of `a < b`, `a == b`, `b < a` holds.
pub proof fn lemma_bytes_lt_trichotomy(a: Seq<u8>, b: Seq<u8>)
    ensures
        bytes_lt(a, b) || a == b || bytes_lt(b, a),
        bytes_lt(a, b) ==> a != b && !bytes_lt(b, a),
        a == b ==> !bytes_lt(a, b) && !bytes_lt(b, a),
    decreases a.len(),
{
    if a.len() == 0 || b.len() == 0 {
        if a.len() == 0 && b.len() == 0 {
            assert(a =~= b);
        }
    } else if a[0] == b[0] {
        lemma_bytes_lt_trichotomy(a.drop_first(), b.drop_first());
        if a.drop_first() == b.drop_first() {
            assert forall|m: int| 0 <= m < a.len() implies a[m] == b[m] by {
                if m > 0 {
                    assert(a[m] == a.drop_first()[m - 1]);
                    assert(b[m] == b.drop_first()[m - 1]);
                }
            }
            assert(a =~= b);
        }
        if a == b {
            assert(a.drop_first() =~= b.drop_first());
        }
    } else {
        if a == b {
            assert(a[0] == b[0]);
        }
    }
}

/// Lexicographic order is transitive.
pub proof fn lemma_bytes_lt_trans(a: Seq<u8>, b: Seq<u8>, c: Seq<u8>)
    requires
        bytes_lt(a, b),
        bytes_lt(b, c),
    ensures
        bytes_lt(a, c),
    decreases a.len(),
{
    if a.len() == 0 {
    } else {
        if a[0] == b[0] && b[0] == c[0] {
            lemma_bytes_lt_trans(a.drop_first(), b.drop_first(), c.drop_first());
        }
    }
}

/// Three-way comparison of byte strings: negative, zero or positive as `a`
/// is below, equal to, or above `b`.
fn cmp_bytes(a: &[u8], b: &[u8]) -> (r: i8)
    ensures
        r == -1i8 ==> bytes_lt(a@, b@),
        r == 0i8 ==> a@ == b@,
        r == 1i8 ==> bytes_lt(b@, a@),
        r == -1i8 || r == 0i8 || r == 1i8,
{
    let mut i: usize = 0;
    let alen = a.len();
    let blen = b.len();
    proof {
        assert(a@.skip(0) =~= a@);
        assert(b@.skip(0) =~= b@);
    }
    while i < alen && i < blen
        invariant
            i <= a@.len(),
            i <= b@.len(),
            alen == a@.len(),
            blen == b@.len(),
            forall|j: int| 0 <= j < i ==> a@[j] == b@[j],
            forall|j: int|
                0 <= j <= i ==> (bytes_lt(a@.skip(j), b@.skip(j)) == bytes_lt(a@, b@) && bytes_lt(
                    b@.skip(j),
                    a@.skip(j),
                ) == bytes_lt(b@, a@) && ((a@.skip(j) == b@.skip(j)) == (a@ == b@))),
        decreases alen - i,
    {
        let ca = a[i];
        let cb = b[i];
        if ca < cb {
            proof {
                assert(bytes_lt(a@.skip(i as int), b@.skip(i as int))) by {
                    assert(a@.skip(i as int)[0] == ca && b@.skip(i as int)[0] == cb);
                }
            }
            return -1;
        }
        if ca > cb {
            proof {
                assert(bytes_lt(b@.skip(i as int), a@.skip(i as int))) by {
                    assert(a@.skip(i as int)[0] == ca && b@.skip(i as int)[0] == cb);
                }
            }
            return 1;
        }
        proof {
            let j = i as int;
            assert(a@.skip(j).drop_first() =~= a@.skip(j + 1));
            assert(b@.skip(j).drop_first() =~= b@.skip(j + 1));
            assert(a@.skip(j)[0] == b@.skip(j)[0]);
            assert(bytes_lt(a@.skip(j), b@.skip(j)) == bytes_lt(a@.skip(j + 1), b@.skip(j + 1)));
            assert(bytes_lt(b@.skip(j), a@.skip(j)) == bytes_lt(b@.skip(j + 1), a@.skip(j + 1)));
            assert((a@.skip(j) == b@.skip(j)) == (a@.skip(j + 1) == b@.skip(j + 1))) by {
                if a@.skip(j + 1) == b@.skip(j + 1) {
                    assert forall|m: int| 0 <= m < a@.skip(j).len() implies a@.skip(j)[m]
                        == b@.skip(j)[m] by {
                        if m > 0 {
                            assert(a@.skip(j)[m] == a@.skip(j + 1)[m - 1]);
                            assert(b@.skip(j)[m] == b@.skip(j + 1)[m - 1]);
                        } else {
                            assert(a@.skip(j)[0] == a@[j]);
                            assert(b@.skip(j)[0] == b@[j]);
                        }
                    }
                    assert(a@.skip(j) =~= b@.skip(j));
                }
                if a@.skip(j) == b@.skip(j) {
                    assert(a@.skip(j + 1) =~= b@.skip(j + 1));
                }
            }
        }
        i = i + 1;
    }
    proof {
        let j = i as int;
        if a@.len() == b@.len() {
            assert(a@.skip(j) =~= b@.skip(j));
        } else if a@.len() < b@.len() {
            assert(a@.skip(j).len() == 0 && b@.skip(j).len() > 0);
            assert(bytes_lt(a@.skip(j), b@.skip(j)));
        } else {
            assert(b@.skip(j).len() == 0 && a@.skip(j).len() > 0);
            assert(bytes_lt(b@.skip(j), a@.skip(j)));
        }
    }
    if alen == blen {
        0
    } else if alen < blen {
        -1
    } else {
        1
    }
}

/// A power of two.
pub open spec fn is_pow2(x: int) -> bool
    decreases x,
{
    if x <= 0 {
        false
    } else if x == 1 {
        true
    } else {
        x % 2 == 0 && is_pow2(x / 2)
    }
}

/// The smallest power of two at least `n` (and at least 1).
pub open spec fn pow2up(n: int) -> int
    decreases n,
{
    if n <= 1 {
        1
    } else {
        2 * pow2up((n + 1) / 2)
    }
}

/// What `pow2up` returns: a power of two, at least `n`, and minimally so.
pub proof fn lemma_pow2up(n: int)
    ensures
        pow2up(n) >= 1,
        pow2up(n) >= n,
        is_pow2(pow2up(n)),
        pow2up(n) > 1 ==> pow2up(n) / 2 < n,
    decreases n,
{
    if n > 1 {
        let m = (n + 1) / 2;
        lemma_pow2up(m);
        assert(2 * pow2up(m) >= n);
        if pow2up(m) > 1 {
            assert(pow2up(m) / 2 < m);
            assert(pow2up(m) % 2 == 0);
            assert(pow2up(m) <= 2 * m - 2);
            assert(pow2up(n) / 2 == pow2up(m));
            assert(2 * m - 2 < n);
        } else {
            assert(pow2up(n) / 2 == 1);
        }
    }
}

/// Any power of two that is at least `n`, minimally so, is `pow2up(n)`.
pub proof fn lemma_pow2up_unique(n: int, p: int)
    requires
        is_pow2(p),
        p >= n,
        p == 1 || p / 2 < n,
    ensures
        p == pow2up(n),
    decreases n,
{
    if n <= 1 {
        if p > 1 {
            assert(p / 2 < n);
            assert(p % 2 == 0 && is_pow2(p / 2));
            assert(p / 2 >= 1);
        }
    } else {
        assert(p >= 2);
        assert(p % 2 == 0 && is_pow2(p / 2));
        let m = (n + 1) / 2;
        assert(p / 2 >= m) by {
            assert(p >= n && p % 2 == 0);
        }
        if p / 2 > 1 {
            assert(p / 2 < n);
            assert((p / 2) / 2 < m) by {
                assert(p / 2 <= n - 1);
            }
        }
        lemma_pow2up_unique(m, p / 2);
    }
}

/// A power of two strictly above another is at least its double.
proof fn lemma_pow2_gap(a: int, b: int)
    requires
        is_pow2(a),
        is_pow2(b),
        b > a,
    ensures
        b >= 2 * a,
    decreases b,
{
    if a == 1 {
        assert(b % 2 == 0);
    } else {
        assert(a % 2 == 0 && is_pow2(a / 2));
        assert(b % 2 == 0 && is_pow2(b / 2));
        lemma_pow2_gap(a / 2, b / 2);
    }
}

/// The smallest power of two at least `n` (and at least 1), if one fits.
fn next_pow2(n: usize) -> (r: Option<usize>)
    ensures
        r matches Some(p) ==> p as int == pow2up(n as int),
        r is None ==> pow2up(n as int) > usize::MAX,
{
    let mut p: usize = 1;
    while p < n
        invariant
            p >= 1,
            is_pow2(p as int),
            p > 1 ==> p / 2 < n,
        decreases usize::MAX - p,
    {
        if p > usize::MAX / 2 {
            proof {
                lemma_pow2up(n as int);
                assert(pow2up(n as int) > p as int) by {
                    if pow2up(n as int) <= p as int {
                        assert(pow2up(n as int) >= n > p);
                    }
                }
                lemma_pow2_gap(p as int, pow2up(n as int));
            }
            return None;
        }
        p = p * 2;
    }
    proof {
        lemma_pow2up_unique(n as int, p as int);
    }
    Some(p)
}

/// The minimal-perfect-hash engine.
pub struct MphMatcher {
    ac: ACAutomaton,
    rules: Vec<Vec<u8>>,
    level0: Vec<u32>,
    level0_mask: u32,
    level1: Vec<u32>,
    level1_mask: u32,
    built_tag: Ghost<bool>,
}

impl MphMatcher {
    /// The rule list as byte strings.
    pub closed spec fn rules_view(&self) -> Seq<Seq<u8>> {
        Seq::new(self.rules@.len(), |i: int| self.rules@[i]@)
    }

    /// The set of exact and domain rule byte strings.
    pub open spec fn rule_set(&self) -> Set<Seq<u8>> {
        self.rules_view().to_set()
    }

    /// The internal automaton's annotation map (its substring rules).
    pub closed spec fn sub_model(&self) -> Map<Seq<u8>, MatchType> {
        self.ac.model()
    }

    /// The internal automaton's node count.
    pub closed spec fn sub_nodes(&self) -> int {
        self.ac.nodes()
    }

    /// The internal automaton's nonempty trie paths.
    pub closed spec fn sub_paths(&self) -> Set<Seq<u8>> {
        self.ac.paths_set()
    }

    pub closed spec fn built_spec(&self) -> bool {
        self.built_tag@
    }

    /// The second-level slot a rule occupies under a given seed.
    pub closed spec fn slot_of(&self, seed: u32, s: Seq<u8>) -> int {
        (mem_hash_spec(seed, s) & self.level1_mask) as int
    }

    /// The first-level bucket a rule falls into.
    pub closed spec fn bucket_of(&self, s: Seq<u8>) -> int {
        (rhash(s) & self.level0_mask) as int
    }

    /// The built two-level table indexes every rule perfectly.
    pub closed spec fn table_ok(&self) -> bool {
        &&& self.level0@.len() == self.level0_mask + 1
        &&& self.level1@.len() == self.level1_mask + 1
        &&& self.rules@.len() <= u32::MAX
        &&& forall|s: int|
            0 <= s < self.level1@.len() && self.rules@.len() > 0 ==> (
            #[trigger] self.level1@[s]) < self.rules@.len()
        &&& forall|ri: int|
            0 <= ri < self.rules@.len() ==> self.level1@[self.slot_of(
                self.level0@[self.bucket_of(#[trigger] self.rules_view()[ri])],
                self.rules_view()[ri],
            )] == ri as u32
    }

    pub closed spec fn mph_inv(&self) -> bool {
        &&& self.ac.ac_inv()
        &&& forall|i: int, j: int|
            0 <= i < j < self.rules_view().len() ==> bytes_lt(
                #[trigger] self.rules_view()[i],
                #[trigger] self.rules_view()[j],
            )
        &&& if self.built_tag@ {
            self.table_ok() && (self.ac.nodes() > 0 ==> self.ac.built_spec())
        } else {
            !self.ac.built_spec()
        }
    }

    /// Whether some rule matches `q`.
    pub open spec fn mph_matches_spec(&self, q: Seq<u8>) -> bool {
        table_matches(self.rule_set(), q) || (self.sub_nodes() > 0 && ac_matches(
            self.sub_model(),
            classes(q),
        ))
    }

    /// The exact state change of one insertion.
    pub open spec fn mph_inserted(
        pre: MphMatcher,
        post: MphMatcher,
        p: Seq<u8>,
        t: MatchType,
    ) -> bool {
        &&& post.rule_set() == table_step(pre.rule_set(), p, t)
        &&& (t is SubStr ==> post.sub_model() == ac_step(pre.sub_model(), classes(p), t)
            && post.sub_paths() == pre.sub_paths().union(crate::ac_automaton::ins_paths(p, t)) && (
        post.sub_nodes() > 0 <==> (pre.sub_nodes() > 0 || p.len() > 0)) && post.sub_nodes()
            >= pre.sub_nodes())
        &&& (!(t is SubStr) ==> post.sub_model() == pre.sub_model() && post.sub_nodes()
            == pre.sub_nodes() && post.sub_paths() == pre.sub_paths())
    }

    pub open spec fn mph_fresh(&self) -> bool {
        &&& self.rule_set() == Set::<Seq<u8>>::empty()
        &&& self.sub_model() == Map::<Seq<u8>, MatchType>::empty()
        &&& self.sub_nodes() == 0
        &&& self.sub_paths() == Set::<Seq<u8>>::empty()
    }

    /// The perfect-hash engine's substring-node counter counts exactly its
    /// automaton's nonempty paths.
    pub proof fn lemma_mph_nodes_are_paths(m: MphMatcher)
        requires
            m.mph_inv(),
        ensures
            m.sub_paths().finite(),
            m.sub_nodes() == m.sub_paths().len(),
    {
        ACAutomaton::lemma_nodes_are_paths(m.ac);
    }

    pub fn new(size: usize) -> (r: MphMatcher)
        ensures
            r.mph_inv(),
            !r.built_spec(),
            r.mph_fresh(),
    {
        let r = MphMatcher {
            ac: ACAutomaton::new(size),
            rules: Vec::new(),
            level0: Vec::new(),
            level0_mask: 0,
            level1: Vec::new(),
            level1_mask: 0,
            built_tag: Ghost(false),
        };
        proof {
            assert(r.rules_view() =~= Seq::<Seq<u8>>::empty());
            assert(r.rule_set() =~= Set::<Seq<u8>>::empty());
        }
        r
    }

    /// Insert one byte string into the sorted rule list, unless present.
    fn insert_rules(&mut self, pattern: Vec<u8>)
        requires
            old(self).mph_inv(),
            !old(self).built_spec(),
        ensures
            final(self).mph_inv(),
            !final(self).built_spec(),
            final(self).rule_set() == old(self).rule_set().insert(pattern@),
            final(self).sub_model() == old(self).sub_model(),
            final(self).sub_nodes() == old(self).sub_nodes(),
            final(self).sub_paths() == old(self).sub_paths(),
    {
        let ghost pre = *old(self);
        let ghost pv = pattern@;
        let mut lo: usize = 0;
        let mut hi: usize = self.rules.len();
        while lo < hi
            invariant
                self == old(self),
                pre == *old(self),
                old(self).mph_inv(),
                !old(self).built_spec(),
                pv == pattern@,
                lo <= hi <= self.rules@.len(),
                forall|i: int| 0 <= i < lo ==> bytes_lt(#[trigger] self.rules_view()[i], pv),
                forall|i: int|
                    hi <= i < self.rules@.len() ==> bytes_lt(pv, #[trigger] self.rules_view()[i]),
                forall|i: int, j: int|
                    0 <= i < j < self.rules_view().len() ==> bytes_lt(
                        #[trigger] self.rules_view()[i],
                        #[trigger] self.rules_view()[j],
                    ),
            decreases hi - lo,
        {
            let mid = lo + (hi - lo) / 2;
            let c = cmp_bytes(self.rules[mid].as_slice(), pattern.as_slice());
            if c == 0 {
                proof {
                    assert(self.rules_view()[mid as int] == pv);
                    assert(self.rule_set().contains(pv));
                    assert(self.rule_set() =~= pre.rule_set().insert(pv));
                }
                return ;
            } else if c < 0 {
                proof {
                    assert(bytes_lt(self.rules_view()[mid as int], pv));
                    assert forall|i: int| 0 <= i < mid + 1 implies bytes_lt(
                        #[trigger] self.rules_view()[i],
                        pv,
                    ) by {
                        if i < mid as int {
                            lemma_bytes_lt_trans(
                                self.rules_view()[i],
                                self.rules_view()[mid as int],
                                pv,
                            );
                        }
                    }
                }
                lo = mid + 1;
            } else {
                proof {
                    assert(bytes_lt(pv, self.rules_view()[mid as int]));
                    assert forall|i: int| mid <= i < self.rules@.len() implies bytes_lt(
                        pv,
                        #[trigger] self.rules_view()[i],
                    ) by {
                        if i > mid as int {
                            lemma_bytes_lt_trans(
                                pv,
                                self.rules_view()[mid as int],
                                self.rules_view()[i],
                            );
                        }
                    }
                }
                hi = mid;
            }
        }
        // not found: lo is the insertion point
        let ghost rv_old = self.rules_view();
        self.rules.insert(lo, pattern);
        proof {
            assert(self.rules_view() =~= rv_old.insert(lo as int, pv));
            assert forall|i: int, j: int|
                0 <= i < j < self.rules_view().len() implies bytes_lt(
                #[trigger] self.rules_view()[i],
                #[trigger] self.rules_view()[j],
            ) by {
                let rv = self.rules_view();
                let l = lo as int;
                if j < l {
                    assert(rv[i] == rv_old[i] && rv[j] == rv_old[j]);
                } else if i > l {
                    assert(rv[i] == rv_old[i - 1] && rv[j] == rv_old[j - 1]);
                } else if i == l {
                    assert(rv[i] == pv && rv[j] == rv_old[j - 1]);
                } else if j == l {
                    assert(rv[i] == rv_old[i] && rv[j] == pv);
                } else {
                    // i < l < j
                    assert(rv[i] == rv_old[i] && rv[j] == rv_old[j - 1]);
                    assert(bytes_lt(rv_old[i], pv) && bytes_lt(pv, rv_old[j - 1]));
                    lemma_bytes_lt_trans(rv_old[i], pv, rv_old[j - 1]);
                }
            }
            // the set gains exactly the pattern
            assert forall|x: Seq<u8>| #[trigger] self.rule_set().contains(x) implies pre.rule_set(
            ).insert(pv).contains(x) by {
                let i = choose|i: int| 0 <= i < self.rules_view().len() && self.rules_view()[i] == x;
                if i != lo as int {
                    let i0 = if i < lo as int {
                        i
                    } else {
                        i - 1
                    };
                    assert(rv_old[i0] == x);
                }
            }
            assert forall|x: Seq<u8>| pre.rule_set().insert(pv).contains(x) implies #[trigger] self.rule_set(
            ).contains(x) by {
                if x == pv {
                    assert(self.rules_view()[lo as int] == x);
                } else {
                    let i0 = choose|i0: int| 0 <= i0 < rv_old.len() && rv_old[i0] == x;
                    if i0 < lo as int {
                        assert(self.rules_view()[i0] == x);
                    } else {
                        assert(self.rules_view()[i0 + 1] == x);
                    }
                }
            }
            assert(self.rule_set() =~= pre.rule_set().insert(pv));
            assert(self.sub_model() == pre.sub_model());
        }
    }
}

/// The first-level bucket a byte string falls into under a mask.
pub open spec fn bucket_idx(mask0: u32, s: Seq<u8>) -> int {
    (rhash(s) & mask0) as int
}

/// The second-level slot a byte string takes under a seed and mask.
pub open spec fn slot_idx(mask1: u32, seed: u32, s: Seq<u8>) -> int {
    (mem_hash_spec(seed, s) & mask1) as int
}

/// Rule index `x` appears in bucket `b`.
pub open spec fn in_bucket(sparse: Seq<Vec<usize>>, b: int, x: int) -> bool {
    exists|k: int| 0 <= k < sparse[b]@.len() && (#[trigger] sparse[b]@[k]) as int == x
}

/// Bucket id `x` appears among the first `n` entries of the ordering.
pub open spec fn in_order(order: Seq<usize>, n: int, x: int) -> bool {
    exists|j: int| 0 <= j < n && (#[trigger] order[j]) as int == x
}

/// Whether slot `s` is claimed by a rule of a committed bucket.
spec fn covered(
    level0: Seq<u32>,
    mask1: u32,
    rv: Seq<Seq<u8>>,
    committed: Set<int>,
    sparse: Seq<Vec<usize>>,
    s: int,
) -> bool {
    exists|b: int, k: int|
        #![trigger sparse[b]@[k]]
        committed.contains(b) && 0 <= b < sparse.len() && 0 <= k < sparse[b]@.len() && slot_idx(
            mask1,
            level0[b],
            rv[sparse[b]@[k] as int],
        ) == s
}

/// Bitwise-and with a mask cannot exceed the mask.
proof fn lemma_mask_bound(x: u32, m: u32)
    ensures
        (x & m) <= m,
{
    assert((x & m) <= m) by (bit_vector);
}

/// The rule indices below `upto` that fall into bucket `b`, in increasing
/// order.
pub open spec fn members_upto(rv: Seq<Seq<u8>>, mask0: u32, b: int, upto: int) -> Seq<int>
    decreases upto,
{
    if upto <= 0 {
        Seq::empty()
    } else if bucket_idx(mask0, rv[upto - 1]) == b {
        members_upto(rv, mask0, b, upto - 1).push(upto - 1)
    } else {
        members_upto(rv, mask0, b, upto - 1)
    }
}

/// The rule indices of bucket `b`, in increasing order.
pub open spec fn members_of(rv: Seq<Seq<u8>>, mask0: u32, b: int) -> Seq<int> {
    members_upto(rv, mask0, b, rv.len() as int)
}

/// The greedy bucket ordering: larger buckets first, earlier bucket ids
/// first among equals.
pub open spec fn bucket_before(rv: Seq<Seq<u8>>, mask0: u32, b1: int, b2: int) -> bool {
    let s1 = members_of(rv, mask0, b1).len();
    let s2 = members_of(rv, mask0, b2).len();
    s1 > s2 || (s1 == s2 && b1 < b2)
}

/// Insert a bucket id into an ordered id list, before the first entry it
/// precedes.
pub open spec fn insert_ordered(rv: Seq<Seq<u8>>, mask0: u32, s: Seq<int>, b: int) -> Seq<int>
    decreases s.len(),
{
    if s.len() == 0 {
        seq![b]
    } else if bucket_before(rv, mask0, b, s[0]) {
        seq![b] + s
    } else {
        seq![s[0]] + insert_ordered(rv, mask0, s.drop_first(), b)
    }
}

/// The nonempty buckets among `0 .. bmax`, ordered by `bucket_before`.
pub open spec fn ordered_upto(rv: Seq<Seq<u8>>, mask0: u32, bmax: int) -> Seq<int>
    decreases bmax,
{
    if bmax <= 0 {
        Seq::empty()
    } else if members_of(rv, mask0, bmax - 1).len() > 0 {
        insert_ordered(rv, mask0, ordered_upto(rv, mask0, bmax - 1), bmax - 1)
    } else {
        ordered_upto(rv, mask0, bmax - 1)
    }
}

/// Inserting at the position the exec scan finds produces `insert_ordered`.
proof fn lemma_insert_ordered_at(rv: Seq<Seq<u8>>, mask0: u32, s: Seq<int>, b: int, j: int)
    requires
        0 <= j <= s.len(),
        forall|j2: int| 0 <= j2 < j ==> !bucket_before(rv, mask0, b, #[trigger] s[j2]),
        j < s.len() ==> bucket_before(rv, mask0, b, s[j]),
    ensures
        insert_ordered(rv, mask0, s, b) == s.take(j) + seq![b] + s.skip(j),
    decreases s.len(),
{
    if s.len() == 0 {
        assert(insert_ordered(rv, mask0, s, b) =~= s.take(j) + seq![b] + s.skip(j));
    } else if bucket_before(rv, mask0, b, s[0]) {
        assert(j == 0);
        assert(s.take(0) =~= Seq::<int>::empty());
        assert(s.skip(0) =~= s);
        assert(insert_ordered(rv, mask0, s, b) =~= s.take(j) + seq![b] + s.skip(j));
    } else {
        assert(j >= 1);
        assert(forall|j2: int|
            0 <= j2 < j - 1 ==> !bucket_before(rv, mask0, b, #[trigger] s.drop_first()[j2]));
        assert(j - 1 < s.drop_first().len() ==> bucket_before(rv, mask0, b, s.drop_first()[j - 1]));
        lemma_insert_ordered_at(rv, mask0, s.drop_first(), b, j - 1);
        assert(seq![s[0]] + (s.drop_first().take(j - 1) + seq![b] + s.drop_first().skip(j - 1))
            =~= s.take(j) + seq![b] + s.skip(j));
    }
}

/// The members and properties of the ordered id list.
proof fn lemma_insert_ordered_props(rv: Seq<Seq<u8>>, mask0: u32, s: Seq<int>, b: int, x: int)
    ensures
        insert_ordered(rv, mask0, s, b).contains(x) <==> (s.contains(x) || x == b),
        insert_ordered(rv, mask0, s, b).len() == s.len() + 1,
    decreases s.len(),
{
    let r = insert_ordered(rv, mask0, s, b);
    if s.len() == 0 {
        if x == b {
            assert(r[0] == x);
        }
        if r.contains(x) {
            let j = choose|j: int| 0 <= j < r.len() && r[j] == x;
            assert(j == 0);
        }
    } else if bucket_before(rv, mask0, b, s[0]) {
        if r.contains(x) {
            let j = choose|j: int| 0 <= j < r.len() && r[j] == x;
            if j > 0 {
                assert(s[j - 1] == x);
            }
        }
        if s.contains(x) {
            let j = choose|j: int| 0 <= j < s.len() && s[j] == x;
            assert(r[j + 1] == x);
        }
        if x == b {
            assert(r[0] == x);
        }
    } else {
        lemma_insert_ordered_props(rv, mask0, s.drop_first(), b, x);
        let inner = insert_ordered(rv, mask0, s.drop_first(), b);
        if r.contains(x) {
            let j = choose|j: int| 0 <= j < r.len() && r[j] == x;
            if j == 0 {
                assert(s[0] == x);
            } else {
                assert(inner[j - 1] == x);
                if s.drop_first().contains(x) {
                    let j2 = choose|j2: int|
                        0 <= j2 < s.drop_first().len() && s.drop_first()[j2] == x;
                    assert(s[j2 + 1] == x);
                }
            }
        }
        if s.contains(x) {
            let j = choose|j: int| 0 <= j < s.len() && s[j] == x;
            if j == 0 {
                assert(r[0] == x);
            } else {
                assert(s.drop_first()[j - 1] == x);
                assert(inner.contains(x));
                let j2 = choose|j2: int| 0 <= j2 < inner.len() && inner[j2] == x;
                assert(r[j2 + 1] == x);
            }
        }
        if x == b {
            assert(inner.contains(x));
            let j2 = choose|j2: int| 0 <= j2 < inner.len() && inner[j2] == x;
            assert(r[j2 + 1] == x);
        }
    }
}

/// The ordered list holds exactly the nonempty bucket ids below `bmax`.
proof fn lemma_ordered_upto_contains(rv: Seq<Seq<u8>>, mask0: u32, bmax: int, x: int)
    ensures
        ordered_upto(rv, mask0, bmax).contains(x) <==> (0 <= x < bmax && members_of(
            rv,
            mask0,
            x,
        ).len() > 0),
    decreases bmax,
{
    if bmax > 0 {
        lemma_ordered_upto_contains(rv, mask0, bmax - 1, x);
        if members_of(rv, mask0, bmax - 1).len() > 0 {
            lemma_insert_ordered_props(
                rv,
                mask0,
                ordered_upto(rv, mask0, bmax - 1),
                bmax - 1,
                x,
            );
        }
    }
}

/// A seed places every member of a bucket on a distinct free slot.
pub open spec fn slots_ok(
    rv: Seq<Seq<u8>>,
    mask1: u32,
    os: Set<int>,
    ms: Seq<int>,
    seed: u32,
) -> bool {
    &&& forall|a: int, b: int|
        0 <= a < b < ms.len() ==> slot_idx(mask1, seed, rv[#[trigger] ms[a]]) != slot_idx(
            mask1,
            seed,
            rv[#[trigger] ms[b]],
        )
    &&& forall|a: int|
        0 <= a < ms.len() ==> !os.contains(slot_idx(mask1, seed, rv[#[trigger] ms[a]]))
}

/// The first seed from `s` on that places the bucket, if any.
pub open spec fn seed_from(
    rv: Seq<Seq<u8>>,
    mask1: u32,
    os: Set<int>,
    ms: Seq<int>,
    s: u32,
) -> Option<u32>
    decreases u32::MAX - s,
{
    if slots_ok(rv, mask1, os, ms, s) {
        Some(s)
    } else if s == u32::MAX {
        None
    } else {
        seed_from(rv, mask1, os, ms, (s + 1) as u32)
    }
}

/// The slots a bucket claims under a seed.
pub open spec fn slots_of(rv: Seq<Seq<u8>>, mask1: u32, ms: Seq<int>, seed: u32) -> Set<int> {
    Set::new(
        |x: int| exists|a: int| 0 <= a < ms.len() && slot_idx(mask1, seed, rv[#[trigger] ms[a]]) == x,
    )
}

/// Seeds below a seed on which nothing works can be skipped.
proof fn lemma_seed_from_skip(rv: Seq<Seq<u8>>, mask1: u32, os: Set<int>, ms: Seq<int>, s: u32)
    requires
        forall|s2: u32| s2 < s ==> !slots_ok(rv, mask1, os, ms, s2),
    ensures
        seed_from(rv, mask1, os, ms, 0) == seed_from(rv, mask1, os, ms, s),
    decreases s,
{
    if s > 0 {
        lemma_seed_from_skip(rv, mask1, os, ms, (s - 1) as u32);
        assert(!slots_ok(rv, mask1, os, ms, (s - 1) as u32));
        assert(seed_from(rv, mask1, os, ms, (s - 1) as u32) == seed_from(rv, mask1, os, ms, s));
    }
}

/// The seed search succeeds for every remaining bucket of the ordering,
/// threading the claimed slots forward.
pub open spec fn buckets_accept(
    rv: Seq<Seq<u8>>,
    mask0: u32,
    mask1: u32,
    order: Seq<int>,
    j: int,
    os: Set<int>,
) -> bool
    decreases order.len() - j,
{
    if j >= order.len() {
        true
    } else {
        match seed_from(rv, mask1, os, members_of(rv, mask0, order[j]), 0) {
            None => false,
            Some(sd) => buckets_accept(
                rv,
                mask0,
                mask1,
                order,
                j + 1,
                os.union(slots_of(rv, mask1, members_of(rv, mask0, order[j]), sd)),
            ),
        }
    }
}

/// Whether the two-level construction accepts a rule list: the table sizes
/// are representable and every bucket's ceiling-bounded seed search, taken
/// largest bucket first, finds a seed. A deterministic function of the rule
/// list alone.
pub open spec fn mph_build_accepts(rv: Seq<Seq<u8>>) -> bool {
    let n = rv.len() as int;
    let l0 = pow2up(n / 4);
    let l1 = pow2up(n);
    &&& n <= u32::MAX
    &&& l0 <= 0x8000_0000
    &&& l1 <= 0x8000_0000
    &&& buckets_accept(
        rv,
        (l0 - 1) as u32,
        (l1 - 1) as u32,
        ordered_upto(rv, (l0 - 1) as u32, l0),
        0,
        Set::empty(),
    )
}

/// Partition the rule indices into first-level buckets by rolling hash.
/// Two strictly sorted rule lists with the same members are the same list.
proof fn lemma_sorted_unique(x: Seq<Seq<u8>>, y: Seq<Seq<u8>>)
    requires
        forall|i: int, j: int| 0 <= i < j < x.len() ==> bytes_lt(#[trigger] x[i], #[trigger] x[j]),
        forall|i: int, j: int| 0 <= i < j < y.len() ==> bytes_lt(#[trigger] y[i], #[trigger] y[j]),
        forall|e: Seq<u8>| x.contains(e) <==> y.contains(e),
    ensures
        x == y,
    decreases x.len(),
{
    if x.len() == 0 {
        if y.len() > 0 {
            assert(y.contains(y[0]));
        }
        assert(x =~= y);
    } else if y.len() == 0 {
        assert(x.contains(x[0]));
    } else {
        assert(x.contains(x[0]));
        assert(y.contains(y[0]));
        let j = choose|j: int| 0 <= j < y.len() && y[j] == x[0];
        let i = choose|i: int| 0 <= i < x.len() && x[i] == y[0];
        assert(x[0] == y[0]) by {
            if x[0] != y[0] {
                assert(j > 0 && i > 0);
                assert(bytes_lt(y[0], y[j]));
                assert(bytes_lt(x[0], x[i]));
                lemma_bytes_lt_trans(x[0], y[0], x[0]);
                lemma_bytes_lt_trichotomy(x[0], x[0]);
            }
        }
        assert forall|e: Seq<u8>| x.drop_first().contains(e) <==> y.drop_first().contains(e) by {
            if x.drop_first().contains(e) {
                let ii = choose|ii: int|
                    0 <= ii < x.drop_first().len() && x.drop_first()[ii] == e;
                assert(x[ii + 1] == e);
                assert(bytes_lt(x[0], e));
                assert(y.contains(e));
                let jj = choose|jj: int| 0 <= jj < y.len() && y[jj] == e;
                assert(jj > 0) by {
                    lemma_bytes_lt_trichotomy(x[0], e);
                }
                assert(y.drop_first()[jj - 1] == e);
            }
            if y.drop_first().contains(e) {
                let jj = choose|jj: int|
                    0 <= jj < y.drop_first().len() && y.drop_first()[jj] == e;
                assert(y[jj + 1] == e);
                assert(bytes_lt(y[0], e));
                assert(x.contains(e));
                let ii = choose|ii: int| 0 <= ii < x.len() && x[ii] == e;
                assert(ii > 0) by {
                    lemma_bytes_lt_trichotomy(y[0], e);
                }
                assert(x.drop_first()[ii - 1] == e);
            }
        }
        lemma_sorted_unique(x.drop_first(), y.drop_first());
        assert forall|k: int| 0 <= k < x.len() implies x[k] == y[k] by {
            if k > 0 {
                assert(x[k] == x.drop_first()[k - 1]);
                assert(y[k] == y.drop_first()[k - 1]);
            }
        }
        assert(x =~= y);
    }
}

/// The sorted rule list is determined by the rule set it holds: two
/// well-formed engines with the same rules hold the same list.
pub proof fn lemma_rules_view_determined(a: MphMatcher, b: MphMatcher)
    requires
        a.mph_inv(),
        b.mph_inv(),
        a.rule_set() == b.rule_set(),
    ensures
        a.rules_view() == b.rules_view(),
{
    assert forall|e: Seq<u8>| a.rules_view().contains(e) <==> b.rules_view().contains(e) by {
        assert(a.rule_set().contains(e) == a.rules_view().contains(e));
        assert(b.rule_set().contains(e) == b.rules_view().contains(e));
    }
    lemma_sorted_unique(a.rules_view(), b.rules_view());
}

/// The sorted rule list of a well-formed engine is the one strictly sorted
/// list holding its rule set.
pub proof fn lemma_rules_view_of_set(m: MphMatcher, s: Seq<Seq<u8>>)
    requires
        m.mph_inv(),
        forall|i: int, j: int| 0 <= i < j < s.len() ==> bytes_lt(#[trigger] s[i], #[trigger] s[j]),
        forall|e: Seq<u8>| m.rule_set().contains(e) <==> s.contains(e),
    ensures
        m.rules_view() == s,
{
    assert forall|e: Seq<u8>| m.rules_view().contains(e) <==> s.contains(e) by {
        assert(m.rule_set().contains(e) == m.rules_view().contains(e));
    }
    lemma_sorted_unique(m.rules_view(), s);
}

/// The byte strings of a vector of rules.
pub open spec fn views_of(rules: Seq<Vec<u8>>) -> Seq<Seq<u8>> {
    Seq::new(rules.len(), |i: int| rules[i]@)
}

/// An executable bucket matches its specified member list.
pub open spec fn bucket_eq(a: Seq<usize>, m: Seq<int>) -> bool {
    &&& a.len() == m.len()
    &&& forall|k: int| 0 <= k < a.len() ==> (#[trigger] a[k]) as int == m[k]
}

/// An executable id list matches its specified ordering.
pub open spec fn ids_eq(a: Seq<usize>, m: Seq<int>) -> bool {
    &&& a.len() == m.len()
    &&& forall|k: int| 0 <= k < a.len() ==> (#[trigger] a[k]) as int == m[k]
}

fn partition_rules(rules: &Vec<Vec<u8>>, mask0: u32, l0: usize) -> (sparse: Vec<Vec<usize>>)
    requires
        l0 >= 1,
        mask0 as int == l0 - 1,
    ensures
        sparse@.len() == l0,
        forall|b: int, k: int|
            #![trigger sparse@[b]@[k]]
            0 <= b < l0 && 0 <= k < sparse@[b]@.len() ==> (sparse@[b]@[k] as int) < rules@.len()
                && bucket_idx(mask0, rules@[sparse@[b]@[k] as int]@) == b,
        forall|x: int|
            0 <= x < rules@.len() ==> #[trigger] in_bucket(
                sparse@,
                bucket_idx(mask0, rules@[x]@),
                x,
            ),
        forall|b: int|
            0 <= b < l0 ==> bucket_eq(
                (#[trigger] sparse@[b])@,
                members_of(views_of(rules@), mask0, b),
            ),
{
    let ghost vr = views_of(rules@);
    let size = rules.len();
    let mut sparse: Vec<Vec<usize>> = Vec::new();
    let mut bi: usize = 0;
    while bi < l0
        invariant
            sparse@.len() == bi,
            bi <= l0,
            forall|b: int| 0 <= b < bi ==> (#[trigger] sparse@[b])@.len() == 0,
        decreases l0 - bi,
    {
        sparse.push(Vec::new());
        bi = bi + 1;
    }
    let mut ri: usize = 0;
    while ri < size
        invariant
            size == rules@.len(),
            l0 >= 1,
            mask0 as int == l0 - 1,
            sparse@.len() == l0,
            ri <= size,
            forall|b: int, k: int|
                #![trigger sparse@[b]@[k]]
                0 <= b < l0 && 0 <= k < sparse@[b]@.len() ==> (sparse@[b]@[k] as int) < ri
                    && bucket_idx(mask0, rules@[sparse@[b]@[k] as int]@) == b,
            forall|x: int|
                0 <= x < ri ==> #[trigger] in_bucket(sparse@, bucket_idx(mask0, rules@[x]@), x),
            vr == views_of(rules@),
            forall|b: int|
                0 <= b < l0 ==> bucket_eq((#[trigger] sparse@[b])@, members_upto(vr, mask0, b, ri as int)),
        decreases size - ri,
    {
        let h = rolling_hash(rules[ri].as_slice());
        let idx = (h & mask0) as usize;
        proof {
            lemma_mask_bound(h, mask0);
            assert(idx < l0);
            assert(bucket_idx(mask0, rules@[ri as int]@) == idx);
        }
        let ghost sparse_old = sparse@;
        let mut row: Vec<usize> = Vec::new();
        core::mem::swap(&mut row, &mut sparse[idx]);
        row.push(ri);
        sparse[idx] = row;
        proof {
            assert(sparse@[idx as int]@ == sparse_old[idx as int]@.push(ri));
            assert(forall|b: int|
                0 <= b < l0 && b != idx as int ==> #[trigger] sparse@[b] == sparse_old[b]);
            assert forall|b: int, k: int|
                #![trigger sparse@[b]@[k]]
                0 <= b < l0 && 0 <= k < sparse@[b]@.len() implies (sparse@[b]@[k] as int) < ri + 1
                && bucket_idx(mask0, rules@[sparse@[b]@[k] as int]@) == b by {
                if b == idx as int {
                    if k < sparse_old[b]@.len() {
                        assert(sparse@[b]@[k] == sparse_old[b]@[k]);
                    } else {
                        assert(sparse@[b]@[k] == ri);
                    }
                } else {
                    assert(sparse@[b]@[k] == sparse_old[b]@[k]);
                }
            }
            assert forall|b: int| 0 <= b < l0 implies bucket_eq(
                (#[trigger] sparse@[b])@,
                members_upto(vr, mask0, b, ri + 1),
            ) by {
                assert(vr[ri as int] == rules@[ri as int]@);
                if b == idx as int {
                    assert(members_upto(vr, mask0, b, ri + 1) == members_upto(
                        vr,
                        mask0,
                        b,
                        ri as int,
                    ).push(ri as int));
                } else {
                    assert(members_upto(vr, mask0, b, ri + 1) == members_upto(
                        vr,
                        mask0,
                        b,
                        ri as int,
                    ));
                    assert(sparse@[b] == sparse_old[b]);
                }
            }
            assert forall|x: int| 0 <= x < ri + 1 implies #[trigger] in_bucket(
                sparse@,
                bucket_idx(mask0, rules@[x]@),
                x,
            ) by {
                lemma_mask_bound(rhash(rules@[x]@), mask0);
                let bx = bucket_idx(mask0, rules@[x]@);
                assert(0 <= bx < l0);
                if x < ri {
                    assert(in_bucket(sparse_old, bx, x));
                    let k = choose|k: int|
                        0 <= k < sparse_old[bx]@.len() && (#[trigger] sparse_old[bx]@[k]) as int
                            == x;
                    if bx == idx as int {
                        assert(sparse@[bx]@[k] == sparse_old[bx]@[k]);
                    }
                    assert(sparse@[bx]@[k] as int == x);
                } else {
                    assert(bx == idx as int);
                    assert(sparse@[bx]@[sparse@[bx]@.len() - 1] as int == x);
                }
            }
        }
        ri = ri + 1;
    }
    proof {
        assert(forall|b: int|
            0 <= b < l0 ==> members_upto(vr, mask0, b, size as int) == #[trigger] members_of(
                vr,
                mask0,
                b,
            ));
    }
    sparse
}

/// Collect the nonempty buckets and order them by descending size.
/// Collect the nonempty buckets, largest first (earlier ids first among
/// equals — the stable descending order).
fn order_buckets(rules: &Vec<Vec<u8>>, sparse: &Vec<Vec<usize>>, mask0: u32) -> (order: Vec<usize>)
    requires
        forall|b: int|
            0 <= b < sparse@.len() ==> bucket_eq(
                (#[trigger] sparse@[b])@,
                members_of(views_of(rules@), mask0, b),
            ),
    ensures
        forall|j: int| 0 <= j < order@.len() ==> ((#[trigger] order@[j]) as int) < sparse@.len(),
        forall|j1: int, j2: int|
            0 <= j1 < j2 < order@.len() ==> (#[trigger] order@[j1]) != (#[trigger] order@[j2]),
        forall|b: int|
            0 <= b < sparse@.len() && (#[trigger] sparse@[b])@.len() > 0 ==> exists|j: int|
                0 <= j < order@.len() && (#[trigger] order@[j]) as int == b,
        ids_eq(order@, ordered_upto(views_of(rules@), mask0, sparse@.len() as int)),
{
    let ghost vr = views_of(rules@);
    let l0 = sparse.len();
    let mut order: Vec<usize> = Vec::new();
    let mut b2: usize = 0;
    while b2 < l0
        invariant
            vr == views_of(rules@),
            forall|b: int|
                0 <= b < sparse@.len() ==> bucket_eq(
                    (#[trigger] sparse@[b])@,
                    members_of(vr, mask0, b),
                ),
            l0 == sparse@.len(),
            b2 <= l0,
            forall|j: int| 0 <= j < order@.len() ==> ((#[trigger] order@[j]) as int) < b2,
            forall|j1: int, j2: int|
                0 <= j1 < j2 < order@.len() ==> (#[trigger] order@[j1]) != (#[trigger] order@[j2]),
            ids_eq(order@, ordered_upto(vr, mask0, b2 as int)),
        decreases l0 - b2,
    {
        if sparse[b2].len() > 0 {
            let ghost order_old = order@;
            let ghost om = ordered_upto(vr, mask0, b2 as int);
            let sb = sparse[b2].len();
            let mut j: usize = 0;
            let mut found = false;
            while j < order.len() && !found
                invariant
                    vr == views_of(rules@),
                    forall|b: int|
                        0 <= b < sparse@.len() ==> bucket_eq(
                            (#[trigger] sparse@[b])@,
                            members_of(vr, mask0, b),
                        ),
                    l0 == sparse@.len(),
                    b2 < l0,
                    sb == sparse@[b2 as int]@.len(),
                    order@ == order_old,
                    j <= order@.len(),
                    forall|j2: int|
                        0 <= j2 < order@.len() ==> ((#[trigger] order@[j2]) as int) < b2,
                    forall|j2: int|
                        0 <= j2 < j ==> !bucket_before(vr, mask0, b2 as int, (
                        #[trigger] order@[j2]) as int),
                    found ==> j < order@.len() && bucket_before(
                        vr,
                        mask0,
                        b2 as int,
                        order@[j as int] as int,
                    ),
                decreases order@.len() - j, (if found {
                    0int
                } else {
                    1int
                }),
            {
                let oj = order[j];
                let so = sparse[oj].len();
                proof {
                    assert(so == members_of(vr, mask0, oj as int).len());
                    assert(sb == members_of(vr, mask0, b2 as int).len());
                }
                if sb > so || (sb == so && b2 < oj) {
                    found = true;
                } else {
                    proof {
                        assert(!bucket_before(vr, mask0, b2 as int, oj as int));
                    }
                    j = j + 1;
                }
            }
            proof {
                assert(j as int <= om.len());
                assert forall|j2: int| 0 <= j2 < j implies !bucket_before(
                    vr,
                    mask0,
                    b2 as int,
                    #[trigger] om[j2],
                ) by {
                    assert(order@[j2] as int == om[j2]);
                }
                if found {
                    assert(bucket_before(vr, mask0, b2 as int, om[j as int]));
                } else {
                    assert(j as int == om.len());
                }
                lemma_insert_ordered_at(vr, mask0, om, b2 as int, j as int);
            }
            order.insert(j, b2);
            proof {
                assert(order@ == order_old.insert(j as int, b2));
                assert(members_of(vr, mask0, b2 as int).len() > 0);
                assert(ordered_upto(vr, mask0, b2 + 1) == insert_ordered(vr, mask0, om, b2 as int));
                assert(ids_eq(order@, ordered_upto(vr, mask0, b2 + 1))) by {
                    let goal = om.take(j as int) + seq![b2 as int] + om.skip(j as int);
                    assert(order@.len() == goal.len());
                    assert forall|k: int| 0 <= k < order@.len() implies (#[trigger] order@[k]) as int
                        == goal[k] by {
                        if k < j as int {
                            assert(order@[k] == order_old[k]);
                        } else if k == j as int {
                            assert(order@[k] == b2);
                        } else {
                            assert(order@[k] == order_old[k - 1]);
                        }
                    }
                }
                assert forall|j1: int, j2: int|
                    0 <= j1 < j2 < order@.len() implies (#[trigger] order@[j1]) != (
                #[trigger] order@[j2]) by {
                    let w1 = if j1 < j as int {
                        order_old[j1]
                    } else if j1 == j as int {
                        b2
                    } else {
                        order_old[j1 - 1]
                    };
                    let w2 = if j2 < j as int {
                        order_old[j2]
                    } else if j2 == j as int {
                        b2
                    } else {
                        order_old[j2 - 1]
                    };
                    assert(order@[j1] == w1 && order@[j2] == w2);
                }
            }
        } else {
            proof {
                assert(members_of(vr, mask0, b2 as int).len() == 0);
                assert(ordered_upto(vr, mask0, b2 + 1) == ordered_upto(vr, mask0, b2 as int));
            }
        }
        b2 = b2 + 1;
    }
    proof {
        assert forall|b: int|
            0 <= b < sparse@.len() && (#[trigger] sparse@[b])@.len() > 0 implies exists|j: int|
            0 <= j < order@.len() && (#[trigger] order@[j]) as int == b by {
            lemma_ordered_upto_contains(vr, mask0, l0 as int, b);
            assert(members_of(vr, mask0, b).len() > 0);
            assert(ordered_upto(vr, mask0, l0 as int).contains(b));
            let j = choose|j: int|
                0 <= j < ordered_upto(vr, mask0, l0 as int).len() && ordered_upto(
                    vr,
                    mask0,
                    l0 as int,
                )[j] == b;
            assert(order@[j] as int == b);
        }
    }
    order
}

impl MphMatcher {
    /// Build the two-level table over the frozen rule list: partition the
    /// rules into first-level buckets by rolling hash, order the buckets by
    /// descending size, then search increasing seeds per bucket until all of
    /// a bucket's rules land on free second-level slots; claimed slots roll
    /// back when a seed fails. Gives up (returning false) only if a seed
    /// search exhausts the whole seed space or a table size cannot be
    /// represented.
    #[verifier::rlimit(100)]
    fn build_table(&mut self) -> (ok: bool)
        ensures
            final(self).rules@ == old(self).rules@,
            final(self).ac == old(self).ac,
            final(self).built_spec() == old(self).built_spec(),
            ok ==> final(self).table_ok(),
            ok == mph_build_accepts(old(self).rules_view()),
    {
        let ghost rv = self.rules_view();
        proof {
            assert(rv =~= views_of(self.rules@));
            lemma_pow2up(rv.len() as int / 4);
            lemma_pow2up(rv.len() as int);
            assert(usize::MAX >= u32::MAX);
        }
        let size = self.rules.len();
        let l0 = match next_pow2(size / 4) {
            Some(p) => p,
            None => {
                proof {
                    assert(pow2up(rv.len() as int / 4) > usize::MAX);
                    assert(!mph_build_accepts(rv));
                }
                return false;
            },
        };
        let l1 = match next_pow2(size) {
            Some(p) => p,
            None => {
                proof {
                    assert(pow2up(rv.len() as int) > usize::MAX);
                    assert(!mph_build_accepts(rv));
                }
                return false;
            },
        };
        if size > u32::MAX as usize {
            proof {
                assert(!mph_build_accepts(rv));
            }
            return false;
        }
        if l0 > 0x8000_0000usize || l1 > 0x8000_0000usize {
            proof {
                assert(!mph_build_accepts(rv));
            }
            return false;
        }
        let mask0 = (l0 - 1) as u32;
        let mask1 = (l1 - 1) as u32;
        let mut level0: Vec<u32> = vec![0u32; l0];
        let mut level1: Vec<u32> = vec![0u32; l1];
        let sparse = partition_rules(&self.rules, mask0, l0);
        let order = order_buckets(&self.rules, &sparse, mask0);
        let ghost ospec = ordered_upto(rv, mask0, l0 as int);
        // per-bucket seed search with rollback
        let mut occ: Vec<bool> = vec![false; l1];
        let mut tmp_occ: Vec<usize> = Vec::new();
        let ghost mut committed: Set<int> = Set::empty();
        let ghost mut os: Set<int> = Set::empty();
        proof {
            assert(forall|sl: int| 0 <= sl < l1 ==> (#[trigger] occ@[sl]) == false);
            assert((l0 as int - 1) as u32 == mask0);
        }
        let mut oi: usize = 0;
        while oi < order.len()
            invariant
                self.rules@.len() == size,
                rv == self.rules_view(),
                rv == views_of(self.rules@),
                size == rv.len(),
                1 <= l0,
                mask0 as int == l0 - 1,
                1 <= l1,
                mask1 as int == l1 - 1,
                l0 as int == pow2up(size as int / 4),
                l1 as int == pow2up(size as int),
                l0 <= 0x8000_0000,
                l1 <= 0x8000_0000,
                level0@.len() == l0,
                level1@.len() == l1,
                size <= u32::MAX,
                sparse@.len() == l0,
                occ@.len() == l1,
                oi <= order@.len(),
                forall|b: int|
                    0 <= b < l0 ==> bucket_eq(
                        (#[trigger] sparse@[b])@,
                        members_of(rv, mask0, b),
                    ),
                ospec == ordered_upto(rv, mask0, l0 as int),
                ids_eq(order@, ospec),
                forall|sl: int| #[trigger] os.contains(sl) ==> 0 <= sl < l1,
                forall|sl: int|
                    0 <= sl < l1 ==> ((#[trigger] os.contains(sl)) <==> covered(
                        level0@,
                        mask1,
                        rv,
                        committed,
                        sparse@,
                        sl,
                    )),
                buckets_accept(rv, mask0, mask1, ospec, 0, Set::empty()) == buckets_accept(
                    rv,
                    mask0,
                    mask1,
                    ospec,
                    oi as int,
                    os,
                ),
                forall|b: int, k: int|
                    #![trigger sparse@[b]@[k]]
                    0 <= b < l0 && 0 <= k < sparse@[b]@.len() ==> (sparse@[b]@[k] as int) < size
                        && bucket_idx(mask0, rv[sparse@[b]@[k] as int]) == b,
                forall|x: int|
                    0 <= x < size ==> #[trigger] in_bucket(sparse@, bucket_idx(mask0, rv[x]), x),
                forall|j: int| 0 <= j < order@.len() ==> ((#[trigger] order@[j]) as int) < l0,
                forall|j1: int, j2: int|
                    0 <= j1 < j2 < order@.len() ==> (#[trigger] order@[j1]) != (
                    #[trigger] order@[j2]),
                forall|b: int|
                    0 <= b < l0 && (#[trigger] sparse@[b])@.len() > 0 ==> in_order(
                        order@,
                        order@.len() as int,
                        b,
                    ),
                forall|x: int| committed.contains(x) <==> #[trigger] in_order(order@, oi as int, x),
                forall|b: int, k: int|
                    #![trigger sparse@[b]@[k]]
                    committed.contains(b) && 0 <= b < l0 && 0 <= k < sparse@[b]@.len() ==> {
                        let sl = slot_idx(mask1, level0@[b], rv[sparse@[b]@[k] as int]);
                        &&& 0 <= sl < l1
                        &&& level1@[sl] == sparse@[b]@[k] as u32
                        &&& occ@[sl]
                    },
                forall|sl: int|
                    0 <= sl < l1 ==> ((#[trigger] occ@[sl]) <==> covered(
                        level0@,
                        mask1,
                        rv,
                        committed,
                        sparse@,
                        sl,
                    )),
                forall|sl: int|
                    0 <= sl < l1 && size > 0 ==> (#[trigger] level1@[sl]) < size,
            decreases order@.len() - oi,
        {
            let b = order[oi];
            let ghost bi_ = b as int;
            proof {
                if committed.contains(bi_) {
                    assert(in_order(order@, oi as int, bi_));
                    let j = choose|j: int| 0 <= j < oi && (#[trigger] order@[j]) as int == bi_;
                    assert(order@[j] != order@[oi as int]);
                }
                assert(!committed.contains(bi_));
            }
            let members = sparse[b].len();
            let ghost committed_entry = committed;
            let ghost os_entry = os;
            let ghost ms = members_of(rv, mask0, bi_);
            proof {
                assert(ospec[oi as int] == bi_);
                assert(bucket_eq(sparse@[bi_]@, ms));
            }
            let mut seed: u32 = 0;
            let mut placed = false;
            while !placed
                invariant
                    self.rules@.len() == size,
                    rv == self.rules_view(),
                    rv == views_of(self.rules@),
                    size == rv.len(),
                    1 <= l0,
                    mask0 as int == l0 - 1,
                    1 <= l1,
                    mask1 as int == l1 - 1,
                    l0 as int == pow2up(size as int / 4),
                    l1 as int == pow2up(size as int),
                    l0 <= 0x8000_0000,
                    l1 <= 0x8000_0000,
                    level0@.len() == l0,
                    level1@.len() == l1,
                    size <= u32::MAX,
                    sparse@.len() == l0,
                    occ@.len() == l1,
                    oi < order@.len(),
                    b == order@[oi as int],
                    bi_ == b as int,
                    (b as int) < l0,
                    members == sparse@[bi_]@.len(),
                    forall|b3: int|
                        0 <= b3 < l0 ==> bucket_eq(
                            (#[trigger] sparse@[b3])@,
                            members_of(rv, mask0, b3),
                        ),
                    ospec == ordered_upto(rv, mask0, l0 as int),
                    ids_eq(order@, ospec),
                    ospec[oi as int] == bi_,
                    ms == members_of(rv, mask0, bi_),
                    bucket_eq(sparse@[bi_]@, ms),
                    committed == (if placed {
                        committed_entry.insert(bi_)
                    } else {
                        committed_entry
                    }),
                    !committed_entry.contains(bi_),
                    os == (if placed {
                        os_entry.union(slots_of(rv, mask1, ms, level0@[bi_]))
                    } else {
                        os_entry
                    }),
                    forall|sl: int| #[trigger] os.contains(sl) ==> 0 <= sl < l1,
                    forall|sl: int|
                        0 <= sl < l1 ==> ((#[trigger] os.contains(sl)) <==> covered(
                            level0@,
                            mask1,
                            rv,
                            committed,
                            sparse@,
                            sl,
                        )),
                    !placed ==> forall|s2: u32|
                        s2 < seed ==> !slots_ok(rv, mask1, os, ms, s2),
                    placed ==> seed_from(rv, mask1, os_entry, ms, 0) == Some(level0@[bi_]),
                    buckets_accept(rv, mask0, mask1, ospec, 0, Set::empty()) == (if placed {
                        buckets_accept(rv, mask0, mask1, ospec, oi + 1, os)
                    } else {
                        buckets_accept(rv, mask0, mask1, ospec, oi as int, os)
                    }),
                    forall|b3: int, k: int|
                        #![trigger sparse@[b3]@[k]]
                        0 <= b3 < l0 && 0 <= k < sparse@[b3]@.len() ==> (sparse@[b3]@[k] as int)
                            < size && bucket_idx(mask0, rv[sparse@[b3]@[k] as int]) == b3,
                    forall|b3: int, k: int|
                        #![trigger sparse@[b3]@[k]]
                        committed.contains(b3) && 0 <= b3 < l0 && 0 <= k < sparse@[b3]@.len()
                            ==> {
                            let sl = slot_idx(mask1, level0@[b3], rv[sparse@[b3]@[k] as int]);
                            &&& 0 <= sl < l1
                            &&& level1@[sl] == sparse@[b3]@[k] as u32
                            &&& occ@[sl]
                        },
                    forall|sl: int|
                        0 <= sl < l1 ==> ((#[trigger] occ@[sl]) <==> covered(
                            level0@,
                            mask1,
                            rv,
                            committed,
                            sparse@,
                            sl,
                        )),
                    forall|sl: int|
                        0 <= sl < l1 && size > 0 ==> (#[trigger] level1@[sl]) < size,
                decreases u32::MAX - seed, (if placed {
                    0int
                } else {
                    1int
                }),
            {
                tmp_occ.clear();
                let mut find = true;
                let mut mi: usize = 0;
                while mi < members && find
                    invariant
                        self.rules@.len() == size,
                        rv == self.rules_view(),
                        1 <= l0,
                        mask0 as int == l0 - 1,
                        1 <= l1,
                        mask1 as int == l1 - 1,
                        level0@.len() == l0,
                        level1@.len() == l1,
                        size <= u32::MAX,
                        sparse@.len() == l0,
                        occ@.len() == l1,
                        committed == committed_entry,
                        os == os_entry,
                        bi_ < l0,
                        b as int == bi_,
                        members == sparse@[bi_]@.len(),
                        ms == members_of(rv, mask0, bi_),
                        bucket_eq(sparse@[bi_]@, ms),
                        forall|sl: int| #[trigger] os.contains(sl) ==> 0 <= sl < l1,
                        forall|sl: int|
                            0 <= sl < l1 ==> ((#[trigger] os.contains(sl)) <==> covered(
                                level0@,
                                mask1,
                                rv,
                                committed,
                                sparse@,
                                sl,
                            )),
                        mi <= members,
                        !committed.contains(bi_),
                        find ==> tmp_occ@.len() == mi,
                        !find ==> !slots_ok(rv, mask1, os, ms, seed),
                        forall|b3: int, k: int|
                            #![trigger sparse@[b3]@[k]]
                            0 <= b3 < l0 && 0 <= k < sparse@[b3]@.len() ==> (sparse@[b3]@[k] as int)
                                < size && bucket_idx(mask0, rv[sparse@[b3]@[k] as int]) == b3,
                        forall|k: int|
                            find && 0 <= k < mi ==> (#[trigger] tmp_occ@[k]) as int == slot_idx(
                                mask1,
                                seed,
                                rv[sparse@[bi_]@[k] as int],
                            ) && ((tmp_occ@[k]) as int) < l1 && level1@[tmp_occ@[k] as int]
                                == sparse@[bi_]@[k] as u32 && !covered(
                                level0@,
                                mask1,
                                rv,
                                committed,
                                sparse@,
                                tmp_occ@[k] as int,
                            ),
                        forall|k1: int, k2: int|
                            find && 0 <= k1 < k2 < mi ==> (#[trigger] tmp_occ@[k1]) != (
                            #[trigger] tmp_occ@[k2]),
                        forall|b3: int, k: int|
                            #![trigger sparse@[b3]@[k]]
                            committed.contains(b3) && 0 <= b3 < l0 && 0 <= k < sparse@[b3]@.len()
                                ==> {
                                let sl = slot_idx(mask1, level0@[b3], rv[sparse@[b3]@[k] as int]);
                                &&& 0 <= sl < l1
                                &&& level1@[sl] == sparse@[b3]@[k] as u32
                                &&& occ@[sl]
                            },
                        forall|sl: int|
                            find && 0 <= sl < l1 ==> ((#[trigger] occ@[sl]) <==> (covered(
                                level0@,
                                mask1,
                                rv,
                                committed,
                                sparse@,
                                sl,
                            ) || exists|k: int|
                                0 <= k < mi && (#[trigger] tmp_occ@[k]) as int == sl)),
                        forall|sl: int|
                            !find && 0 <= sl < l1 ==> ((#[trigger] occ@[sl]) <==> covered(
                                level0@,
                                mask1,
                                rv,
                                committed,
                                sparse@,
                                sl,
                            )),
                        forall|sl: int|
                            0 <= sl < l1 && size > 0 ==> (#[trigger] level1@[sl]) < size,
                    decreases members - mi, (if find {
                        1int
                    } else {
                        0int
                    }),
                {
                    let x = sparse[b][mi];
                    let slot = (seed.mem_hash(self.rules[x].as_slice()) & mask1) as usize;
                    proof {
                        lemma_mask_bound(mem_hash_spec(seed, rv[x as int]), mask1);
                        assert(slot < l1);
                        assert(slot as int == slot_idx(mask1, seed, rv[x as int]));
                    }
                    if occ[slot] {
                        // roll this attempt's claims back
                        let ghost tmp_snap = tmp_occ@;
                        let mut tj: usize = 0;
                        while tj < tmp_occ.len()
                            invariant
                                occ@.len() == l1,
                                tmp_occ@ == tmp_snap,
                                tj <= tmp_snap.len(),
                                tmp_snap.len() == mi,
                                forall|k: int|
                                    0 <= k < mi ==> ((#[trigger] tmp_snap[k]) as int) < l1
                                        && !covered(
                                        level0@,
                                        mask1,
                                        rv,
                                        committed,
                                        sparse@,
                                        tmp_snap[k] as int,
                                    ),
                                forall|k1: int, k2: int|
                                    0 <= k1 < k2 < mi ==> (#[trigger] tmp_snap[k1]) != (
                                    #[trigger] tmp_snap[k2]),
                                forall|sl: int|
                                    0 <= sl < l1 ==> ((#[trigger] occ@[sl]) <==> (covered(
                                        level0@,
                                        mask1,
                                        rv,
                                        committed,
                                        sparse@,
                                        sl,
                                    ) || exists|k: int|
                                        tj <= k < mi && (#[trigger] tmp_snap[k]) as int == sl)),
                            decreases tmp_snap.len() - tj,
                        {
                            let t = tmp_occ[tj];
                            occ[t] = false;
                            proof {
                                assert forall|sl: int| 0 <= sl < l1 implies ((#[trigger] occ@[sl])
                                    <==> (covered(level0@, mask1, rv, committed, sparse@, sl)
                                    || exists|k: int|
                                    tj + 1 <= k < mi && (#[trigger] tmp_snap[k]) as int == sl)) by {
                                    if sl == t as int {
                                        if exists|k: int|
                                            tj + 1 <= k < mi && (#[trigger] tmp_snap[k]) as int
                                                == sl {
                                            let k = choose|k: int|
                                                tj + 1 <= k < mi && (#[trigger] tmp_snap[k]) as int
                                                    == sl;
                                            assert(tmp_snap[k] != tmp_snap[tj as int]);
                                        }
                                    }
                                }
                            }
                            tj = tj + 1;
                        }
                        proof {
                            // this seed cannot place the bucket: the colliding
                            // slot is either claimed by a committed bucket or
                            // by an earlier member of this one
                            assert(!slots_ok(rv, mask1, os, ms, seed)) by {
                                assert(ms[mi as int] == x as int);
                                assert(slot_idx(mask1, seed, rv[ms[mi as int]]) == slot as int);
                                if covered(level0@, mask1, rv, committed, sparse@, slot as int) {
                                    assert(os.contains(slot as int));
                                } else {
                                    let k = choose|k: int|
                                        0 <= k < mi && (#[trigger] tmp_occ@[k]) as int
                                            == slot as int;
                                    assert(ms[k] == sparse@[bi_]@[k] as int);
                                    assert(slot_idx(mask1, seed, rv[ms[k]]) == slot as int);
                                }
                            }
                            assert forall|b3: int, k: int|
                                #![trigger sparse@[b3]@[k]]
                                committed.contains(b3) && 0 <= b3 < l0 && 0 <= k
                                    < sparse@[b3]@.len() implies {
                                let sl = slot_idx(mask1, level0@[b3], rv[sparse@[b3]@[k] as int]);
                                &&& 0 <= sl < l1
                                &&& level1@[sl] == sparse@[b3]@[k] as u32
                                &&& occ@[sl]
                            } by {
                                let sl = slot_idx(mask1, level0@[b3], rv[sparse@[b3]@[k] as int]);
                                assert(covered(level0@, mask1, rv, committed, sparse@, sl));
                            }
                        }
                        find = false;
                    } else {
                        let ghost occ_before = occ@;
                        let ghost tmp_before = tmp_occ@;
                        let ghost level1_before = level1@;
                        occ[slot] = true;
                        tmp_occ.push(slot);
                        level1[slot] = x as u32;
                        proof {
                            assert(tmp_occ@ == tmp_before.push(slot));
                            assert forall|sl: int| 0 <= sl < l1 implies ((#[trigger] occ@[sl])
                                <==> (covered(level0@, mask1, rv, committed, sparse@, sl) || exists|
                            k: int|
                                0 <= k < mi + 1 && (#[trigger] tmp_occ@[k]) as int == sl)) by {
                                if sl == slot as int {
                                    assert(tmp_occ@[mi as int] as int == sl);
                                } else {
                                    assert(occ@[sl] == occ_before[sl]);
                                    if exists|k: int|
                                        0 <= k < mi && (#[trigger] tmp_before[k]) as int == sl {
                                        let k = choose|k: int|
                                            0 <= k < mi && (#[trigger] tmp_before[k]) as int == sl;
                                        assert(tmp_occ@[k] as int == sl);
                                    }
                                    if exists|k: int|
                                        0 <= k < mi + 1 && (#[trigger] tmp_occ@[k]) as int == sl {
                                        let k = choose|k: int|
                                            0 <= k < mi + 1 && (#[trigger] tmp_occ@[k]) as int
                                                == sl;
                                        assert(k < mi);
                                        assert(tmp_before[k] as int == sl);
                                    }
                                }
                            }
                            assert forall|k: int| 0 <= k < mi + 1 implies (#[trigger] tmp_occ@[k])
                                as int == slot_idx(mask1, seed, rv[sparse@[bi_]@[k] as int]) && ((
                            tmp_occ@[k]) as int) < l1 && level1@[tmp_occ@[k] as int]
                                == sparse@[bi_]@[k] as u32 && !covered(
                                level0@,
                                mask1,
                                rv,
                                committed,
                                sparse@,
                                tmp_occ@[k] as int,
                            ) by {
                                if k < mi {
                                    assert(tmp_occ@[k] == tmp_before[k]);
                                    assert(occ_before[tmp_before[k] as int]);
                                    assert(tmp_before[k] as int != slot as int);
                                    assert(level1@[tmp_occ@[k] as int]
                                        == level1_before[tmp_occ@[k] as int]);
                                } else {
                                    assert(tmp_occ@[mi as int] == slot);
                                    assert(!occ_before[slot as int]);
                                    assert(!covered(
                                        level0@,
                                        mask1,
                                        rv,
                                        committed,
                                        sparse@,
                                        slot as int,
                                    ));
                                }
                            }
                            assert forall|k1: int, k2: int| 0 <= k1 < k2 < mi + 1 implies (
                            #[trigger] tmp_occ@[k1]) != (#[trigger] tmp_occ@[k2]) by {
                                if k2 == mi as int {
                                    assert(tmp_occ@[k1] == tmp_before[k1]);
                                    assert(occ_before[tmp_before[k1] as int]);
                                    assert(!occ_before[slot as int]);
                                }
                            }
                            assert forall|b3: int, k: int|
                                #![trigger sparse@[b3]@[k]]
                                committed.contains(b3) && 0 <= b3 < l0 && 0 <= k
                                    < sparse@[b3]@.len() implies {
                                let sl = slot_idx(mask1, level0@[b3], rv[sparse@[b3]@[k] as int]);
                                &&& 0 <= sl < l1
                                &&& level1@[sl] == sparse@[b3]@[k] as u32
                                &&& occ@[sl]
                            } by {
                                let sl = slot_idx(mask1, level0@[b3], rv[sparse@[b3]@[k] as int]);
                                assert(covered(level0@, mask1, rv, committed, sparse@, sl));
                                assert(occ_before[sl]);
                                assert(sl != slot as int);
                                assert(level1@[sl] == level1_before[sl]);
                            }
                        }
                        mi = mi + 1;
                    }
                }
                if find {
                    level0[b] = seed;
                    proof {
                        let ghost level0_old = level0@;
                        committed = committed.insert(bi_);
                        // the new bucket's members sit at their just-claimed
                        // slots; older buckets are untouched by this write
                        assert forall|b3: int, k: int|
                            #![trigger sparse@[b3]@[k]]
                            committed.contains(b3) && 0 <= b3 < l0 && 0 <= k < sparse@[b3]@.len()
                                implies {
                            let sl = slot_idx(mask1, level0@[b3], rv[sparse@[b3]@[k] as int]);
                            &&& 0 <= sl < l1
                            &&& level1@[sl] == sparse@[b3]@[k] as u32
                            &&& occ@[sl]
                        } by {
                            if b3 == bi_ {
                                assert(level0@[b3] == seed);
                                assert(tmp_occ@[k] as int == slot_idx(
                                    mask1,
                                    seed,
                                    rv[sparse@[b3]@[k] as int],
                                ));
                            } else {
                                assert(level0@[b3] == level0_old[b3]);
                            }
                        }
                        assert forall|sl: int| 0 <= sl < l1 implies ((#[trigger] occ@[sl]) <==> covered(
                            level0@,
                            mask1,
                            rv,
                            committed,
                            sparse@,
                            sl,
                        )) by {
                            if covered(level0@, mask1, rv, committed, sparse@, sl) {
                                let (b3, k) = choose|b3: int, k: int|
                                    #![trigger sparse@[b3]@[k]]
                                    committed.contains(b3) && 0 <= b3 < sparse@.len() && 0 <= k
                                        < sparse@[b3]@.len() && slot_idx(
                                        mask1,
                                        level0@[b3],
                                        rv[sparse@[b3]@[k] as int],
                                    ) == sl;
                                assert(occ@[slot_idx(
                                    mask1,
                                    level0@[b3],
                                    rv[sparse@[b3]@[k] as int],
                                )]);
                            } else {
                                if occ@[sl] {
                                    if covered(level0_old, mask1, rv, committed_entry, sparse@, sl) {
                                        let (b3, k) = choose|b3: int, k: int|
                                            #![trigger sparse@[b3]@[k]]
                                            committed_entry.contains(b3) && 0 <= b3 < sparse@.len()
                                                && 0 <= k < sparse@[b3]@.len() && slot_idx(
                                                mask1,
                                                level0_old[b3],
                                                rv[sparse@[b3]@[k] as int],
                                            ) == sl;
                                        assert(committed.contains(b3));
                                        assert(b3 != bi_);
                                        assert(level0@[b3] == level0_old[b3]);
                                        assert(covered(
                                            level0@,
                                            mask1,
                                            rv,
                                            committed,
                                            sparse@,
                                            sl,
                                        ));
                                    } else {
                                        let k = choose|k: int|
                                            0 <= k < members && (#[trigger] tmp_occ@[k]) as int
                                                == sl;
                                        assert(slot_idx(mask1, seed, rv[sparse@[bi_]@[k] as int])
                                            == sl);
                                        assert(covered(
                                            level0@,
                                            mask1,
                                            rv,
                                            committed,
                                            sparse@,
                                            sl,
                                        ));
                                    }
                                }
                            }
                        }
                        // the committed seed is the first workable one, and
                        // the occupied-slot set steps by the bucket's slots
                        assert(slots_ok(rv, mask1, os, ms, seed)) by {
                            assert forall|a: int, b2: int| 0 <= a < b2 < ms.len() implies slot_idx(
                                mask1,
                                seed,
                                rv[#[trigger] ms[a]],
                            ) != slot_idx(mask1, seed, rv[#[trigger] ms[b2]]) by {
                                assert(ms[a] == sparse@[bi_]@[a] as int);
                                assert(ms[b2] == sparse@[bi_]@[b2] as int);
                                assert(tmp_occ@[a] != tmp_occ@[b2]);
                            }
                            assert forall|a: int| 0 <= a < ms.len() implies !os.contains(
                                slot_idx(mask1, seed, rv[#[trigger] ms[a]]),
                            ) by {
                                assert(ms[a] == sparse@[bi_]@[a] as int);
                                assert(!covered(
                                    level0_old,
                                    mask1,
                                    rv,
                                    committed_entry,
                                    sparse@,
                                    tmp_occ@[a] as int,
                                ));
                            }
                        }
                        lemma_seed_from_skip(rv, mask1, os, ms, seed);
                        assert(seed_from(rv, mask1, os, ms, 0) == Some(seed));
                        let ghost os_new = os.union(slots_of(rv, mask1, ms, seed));
                        assert(buckets_accept(rv, mask0, mask1, ospec, oi as int, os)
                            == buckets_accept(rv, mask0, mask1, ospec, oi + 1, os_new));
                        os = os_new;
                        assert(level0@[bi_] == seed);
                        assert forall|sl: int| #[trigger] os.contains(sl) implies 0 <= sl
                            < l1 by {
                            if slots_of(rv, mask1, ms, seed).contains(sl) {
                                let a = choose|a: int|
                                    0 <= a < ms.len() && slot_idx(mask1, seed, rv[#[trigger] ms[a]])
                                        == sl;
                                lemma_mask_bound(mem_hash_spec(seed, rv[ms[a]]), mask1);
                            }
                        }
                        assert forall|sl: int| 0 <= sl < l1 implies ((#[trigger] os.contains(sl))
                            <==> covered(level0@, mask1, rv, committed, sparse@, sl)) by {
                            if os.contains(sl) {
                                if slots_of(rv, mask1, ms, seed).contains(sl) {
                                    let a = choose|a: int|
                                        0 <= a < ms.len() && slot_idx(
                                            mask1,
                                            seed,
                                            rv[#[trigger] ms[a]],
                                        ) == sl;
                                    assert(ms[a] == sparse@[bi_]@[a] as int);
                                    assert(slot_idx(mask1, level0@[bi_], rv[sparse@[bi_]@[a] as int])
                                        == sl);
                                    assert(covered(level0@, mask1, rv, committed, sparse@, sl));
                                } else {
                                    assert(covered(
                                        level0_old,
                                        mask1,
                                        rv,
                                        committed_entry,
                                        sparse@,
                                        sl,
                                    ));
                                    let (b3, k) = choose|b3: int, k: int|
                                        #![trigger sparse@[b3]@[k]]
                                        committed_entry.contains(b3) && 0 <= b3 < sparse@.len()
                                            && 0 <= k < sparse@[b3]@.len() && slot_idx(
                                            mask1,
                                            level0_old[b3],
                                            rv[sparse@[b3]@[k] as int],
                                        ) == sl;
                                    assert(b3 != bi_);
                                    assert(level0@[b3] == level0_old[b3]);
                                    assert(covered(level0@, mask1, rv, committed, sparse@, sl));
                                }
                            } else {
                                if covered(level0@, mask1, rv, committed, sparse@, sl) {
                                    let (b3, k) = choose|b3: int, k: int|
                                        #![trigger sparse@[b3]@[k]]
                                        committed.contains(b3) && 0 <= b3 < sparse@.len() && 0 <= k
                                            < sparse@[b3]@.len() && slot_idx(
                                            mask1,
                                            level0@[b3],
                                            rv[sparse@[b3]@[k] as int],
                                        ) == sl;
                                    if b3 == bi_ {
                                        assert(ms[k] == sparse@[bi_]@[k] as int);
                                        assert(slot_idx(mask1, seed, rv[ms[k]]) == sl);
                                        assert(slots_of(rv, mask1, ms, seed).contains(sl));
                                    } else {
                                        assert(level0@[b3] == level0_old[b3]);
                                        assert(covered(
                                            level0_old,
                                            mask1,
                                            rv,
                                            committed_entry,
                                            sparse@,
                                            sl,
                                        ));
                                        assert(os_entry.contains(sl));
                                    }
                                }
                            }
                        }
                    }
                    placed = true;
                } else {
                    if seed == u32::MAX {
                        proof {
                            // no seed in the whole space places this bucket
                            assert(forall|s2: u32|
                                s2 <= u32::MAX ==> !slots_ok(rv, mask1, os, ms, s2));
                            lemma_seed_from_skip(rv, mask1, os, ms, u32::MAX);
                            assert(seed_from(rv, mask1, os, ms, 0) is None);
                            assert(!buckets_accept(rv, mask0, mask1, ospec, oi as int, os));
                            assert(!buckets_accept(rv, mask0, mask1, ospec, 0, Set::empty()));
                            assert(!mph_build_accepts(rv)) by {
                                assert((pow2up(rv.len() as int / 4) - 1) as u32 == mask0);
                                assert((pow2up(rv.len() as int) - 1) as u32 == mask1);
                            }
                            assert(rv =~= old(self).rules_view());
                        }
                        return false;
                    }
                    seed = seed + 1;
                }
            }
            proof {
                assert forall|x: int| committed.contains(x) implies #[trigger] in_order(
                    order@,
                    oi + 1,
                    x,
                ) by {
                    if x == bi_ {
                        assert(order@[oi as int] as int == x);
                    } else {
                        assert(in_order(order@, oi as int, x));
                        let j = choose|j: int| 0 <= j < oi && (#[trigger] order@[j]) as int == x;
                    }
                }
                assert forall|x: int| #[trigger] in_order(order@, oi + 1, x) implies committed.contains(
                    x,
                ) by {
                    let j = choose|j: int| 0 <= j < oi + 1 && (#[trigger] order@[j]) as int == x;
                    if j == oi as int {
                        assert(x == bi_);
                    } else {
                        assert(in_order(order@, oi as int, x));
                    }
                }
            }
            oi = oi + 1;
        }
        proof {
            // every bucket committed: the construction accepts this rule list
            assert(oi as int >= ospec.len());
            assert(buckets_accept(rv, mask0, mask1, ospec, oi as int, os));
            assert(buckets_accept(rv, mask0, mask1, ospec, 0, Set::empty()));
            assert(mph_build_accepts(rv)) by {
                assert((pow2up(rv.len() as int / 4) - 1) as u32 == mask0);
                assert((pow2up(rv.len() as int) - 1) as u32 == mask1);
            }
            assert(rv =~= old(self).rules_view());
        }
        self.level0 = level0;
        self.level1 = level1;
        self.level0_mask = mask0;
        self.level1_mask = mask1;
        proof {
            assert forall|ri2: int| 0 <= ri2 < self.rules@.len() implies self.level1@[self.slot_of(
                self.level0@[self.bucket_of(#[trigger] self.rules_view()[ri2])],
                self.rules_view()[ri2],
            )] == ri2 as u32 by {
                lemma_mask_bound(rhash(rv[ri2]), mask0);
                let bx = bucket_idx(mask0, rv[ri2]);
                assert(0 <= bx < l0);
                assert(in_bucket(sparse@, bx, ri2));
                let k = choose|k: int|
                    0 <= k < sparse@[bx]@.len() && (#[trigger] sparse@[bx]@[k]) as int == ri2;
                assert(sparse@[bx]@.len() > 0);
                assert(in_order(order@, order@.len() as int, bx));
                assert(committed.contains(bx));
                assert(level1@[slot_idx(mask1, level0@[bx], rv[ri2])] == ri2 as u32);
                assert(self.bucket_of(self.rules_view()[ri2]) == bx);
                assert(self.slot_of(self.level0@[bx], self.rules_view()[ri2]) == slot_idx(
                    mask1,
                    level0@[bx],
                    rv[ri2],
                ));
            }
            assert(self.table_ok());
        }
        true
    }
}

impl MphMatcher {
    /// What one probe of the built two-level table computes for a query:
    /// index through the two levels and compare the indexed rule against the
    /// query byte for byte.
    pub closed spec fn probe_finds(&self, q: Seq<u8>) -> bool {
        let seed = self.level0@[self.bucket_of(q)];
        self.rules_view()[self.level1@[self.slot_of(seed, q)] as int] == q
    }

    /// Perfect-hash correctness: in a built, nonempty engine a table probe
    /// succeeds for exactly the stored rules. Every rule is found (its slot
    /// was assigned to it during the build), and the closing byte-for-byte
    /// comparison leaves every non-member no way to be mistaken for a
    /// member.
    pub proof fn lemma_perfect_hash_correct(m: MphMatcher, q: Seq<u8>)
        requires
            m.mph_inv(),
            m.built_spec(),
            m.rules_view().len() > 0,
        ensures
            m.probe_finds(q) <==> m.rule_set().contains(q),
    {
        let seed = m.level0@[m.bucket_of(q)];
        let ri = m.level1@[m.slot_of(seed, q)] as int;
        lemma_mask_bound(rhash(q), m.level0_mask);
        lemma_mask_bound(mem_hash_spec(seed, q), m.level1_mask);
        if m.probe_finds(q) {
            assert(m.rules_view()[ri] == q);
            assert(m.rules_view().contains(q));
        }
        if m.rule_set().contains(q) {
            let i = choose|i: int|
                0 <= i < m.rules_view().len() && #[trigger] m.rules_view()[i] == q;
            assert(m.level1@[m.slot_of(
                m.level0@[m.bucket_of(m.rules_view()[i])],
                m.rules_view()[i],
            )] == i as u32);
            assert(ri == i);
        }
    }

    /// Whether `a` equals the tail of `s` that starts at `start`.
    fn tail_eq(a: &Vec<u8>, s: &[u8], start: usize) -> (r: bool)
        requires
            start <= s@.len(),
        ensures
            r == (a@ == s@.skip(start as int)),
    {
        let slen = s.len();
        if a.len() != slen - start {
            proof {
                assert(a@.len() != s@.skip(start as int).len());
            }
            return false;
        }
        let mut i: usize = 0;
        while i < a.len()
            invariant
                start <= s@.len(),
                slen == s@.len(),
                a@.len() == s@.len() - start,
                i <= a@.len(),
                forall|j: int| 0 <= j < i ==> a@[j] == s@[start + j],
            decreases a@.len() - i,
        {
            if a[i] != s[start + i] {
                proof {
                    assert(a@[i as int] != s@.skip(start as int)[i as int]);
                }
                return false;
            }
            i = i + 1;
        }
        proof {
            assert(a@ =~= s@.skip(start as int));
        }
        true
    }

    /// Look the tail of `s` from `start` up in the built table: find its
    /// slot through the two levels and confirm by exact comparison. The
    /// comparison makes false positives impossible; the perfect-hash
    /// property makes false negatives impossible.
    fn lookup(&self, h: u32, s: &[u8], start: usize) -> (r: bool)
        requires
            self.mph_inv(),
            self.built_spec(),
            start <= s@.len(),
            h == rhash(s@.skip(start as int)),
            self.rules@.len() > 0,
        ensures
            r == self.rule_set().contains(s@.skip(start as int)),
    {
        let ghost suffix = s@.skip(start as int);
        let level0_idx = (h & self.level0_mask) as usize;
        proof {
            lemma_mask_bound(h, self.level0_mask);
            assert(level0_idx < self.level0@.len());
        }
        let seed = self.level0[level0_idx];
        let sub = &s[start..s.len()];
        proof {
            assert(sub@ == suffix);
        }
        let slot = (seed.mem_hash(sub) & self.level1_mask) as usize;
        proof {
            lemma_mask_bound(mem_hash_spec(seed, suffix), self.level1_mask);
            assert(slot < self.level1@.len());
        }
        let ri = self.level1[slot] as usize;
        proof {
            assert(ri < self.rules@.len());
        }
        let r = MphMatcher::tail_eq(&self.rules[ri], s, start);
        proof {
            assert(self.bucket_of(suffix) == level0_idx as int);
            assert(self.slot_of(seed, suffix) == slot as int);
            assert(r == self.probe_finds(suffix));
            MphMatcher::lemma_perfect_hash_correct(*self, suffix);
        }
        r
    }
}

impl DomainMatcher for MphMatcher {
    open spec fn inv(&self) -> bool {
        self.mph_inv()
    }

    open spec fn built(&self) -> bool {
        self.built_spec()
    }

    open spec fn matches_spec(&self, q: Seq<u8>) -> bool {
        self.mph_matches_spec(q)
    }

    open spec fn inserted(pre: Self, post: Self, p: Seq<u8>, t: MatchType) -> bool {
        MphMatcher::mph_inserted(pre, post, p, t)
    }

    open spec fn fresh(&self) -> bool {
        self.mph_fresh()
    }

    open spec fn build_accepts(&self) -> bool {
        mph_build_accepts(self.rules_view())
    }

    open spec fn same_rules(pre: Self, post: Self) -> bool {
        &&& post.rule_set() == pre.rule_set()
        &&& post.sub_model() == pre.sub_model()
        &&& post.sub_nodes() == pre.sub_nodes()
        &&& post.sub_paths() == pre.sub_paths()
    }

    fn reverse_insert(&mut self, input_string: &str, match_type: MatchType) {
        let bytes = input_string.as_bytes();
        match match_type {
            MatchType::SubStr(_) => {
                self.ac.reverse_insert(input_string, match_type);
                proof {
                    assert(self.rules_view() =~= old(self).rules_view());
                    assert(self.rule_set() =~= old(self).rule_set());
                }
            },
            MatchType::Domain(_) => {
                let bare = vstd::slice::slice_to_vec(bytes);
                let dot = crate::ac_automaton::dotted(bytes);
                self.insert_rules(bare);
                self.insert_rules(dot);
            },
            MatchType::Full(_) => {
                let bare = vstd::slice::slice_to_vec(bytes);
                self.insert_rules(bare);
            },
        }
    }

    fn reverse_query(&self, query_string: &str) -> (r: bool) {
        let ghost q = query_string.spec_bytes();
        let bytes = query_string.as_bytes();
        let have_rules = self.rules.len() > 0;
        proof {
            if !have_rules {
                // an empty rule list holds nothing
                assert forall|s2: Seq<u8>| !(#[trigger] self.rule_set().contains(s2)) by {
                    if self.rules_view().contains(s2) {
                        let i = choose|i: int|
                            0 <= i < self.rules_view().len() && #[trigger] self.rules_view()[i]
                                == s2;
                    }
                }
            }
            assert(q.skip(q.len() as int) =~= Seq::<u8>::empty());
        }
        let mut h: u32 = 0;
        let mut i: usize = bytes.len();
        while i > 0
            invariant
                self.mph_inv(),
                self.built_spec(),
                q == query_string.spec_bytes(),
                bytes@ == q,
                have_rules == (self.rules@.len() > 0),
                i <= q.len(),
                h == rhash(q.skip(i as int)),
                forall|i0: int|
                    i <= i0 < q.len() ==> !(q[i0] == DOT_BYTE && self.rule_set().contains(
                        #[trigger] q.skip(i0),
                    )),
            decreases i,
        {
            let b = bytes[i - 1];
            proof {
                lemma_rhash_skip_step(q, i as int);
            }
            h = rolling_step(h, b);
            if b == DOT_BYTE && have_rules {
                if self.lookup(h, bytes, i - 1) {
                    proof {
                        lemma_skip_is_suffix(q, i - 1);
                        let suffix = q.skip(i - 1);
                        assert(suffix[0] == q[i - 1]);
                        assert(table_entry_matches(suffix, q));
                        assert(table_matches(self.rule_set(), q));
                    }
                    return true;
                }
            }
            proof {
                assert forall|i0: int| i - 1 <= i0 < q.len() implies !(q[i0] == DOT_BYTE
                    && self.rule_set().contains(#[trigger] q.skip(i0))) by {
                    if i0 == i - 1 {
                        assert(q[i0] == bytes@[i - 1]);
                        if !have_rules {
                            assert(!self.rule_set().contains(q.skip(i0)));
                        }
                    }
                }
            }
            i = i - 1;
        }
        proof {
            assert(q.skip(0) =~= q);
        }
        if have_rules {
            if self.lookup(h, bytes, 0) {
                proof {
                    assert(table_entry_matches(q, q));
                    assert(table_matches(self.rule_set(), q));
                }
                return true;
            }
        }
        let r = if !self.ac.empty() {
            proof {
                assert(self.ac.nodes() > 0);
                assert(self.ac.built_spec());
                assert(self.ac.ac_inv());
            }
            self.ac.reverse_query(query_string)
        } else {
            false
        };
        proof {
            if !r {
                if table_matches(self.rule_set(), q) {
                    let s2 = choose|s2: Seq<u8>|
                        #[trigger] self.rule_set().contains(s2) && table_entry_matches(s2, q);
                    if !have_rules {
                        assert(!self.rule_set().contains(s2));
                    }
                    if s2 == q {
                        assert(false);
                    } else {
                        let i0 = q.len() - s2.len();
                        assert(s2 =~= q.skip(i0 as int));
                        assert(q[i0 as int] == s2[0]);
                        assert(false);
                    }
                }
            }
        }
        r
    }

    fn build(&mut self) -> (ok: bool) {
        let ok = self.build_table();
        let ghost mid = *self;
        proof {
            assert(self.rules_view() =~= old(self).rules_view());
            assert(self.rule_set() =~= old(self).rule_set());
        }
        if ok {
            if !self.ac.empty() {
                self.ac.build();
            }
            self.built_tag = Ghost(true);
            proof {
                assert(self.rules_view() =~= mid.rules_view());
                assert(self.rules_view() =~= old(self).rules_view());
                assert(self.rule_set() =~= old(self).rule_set());
                assert(mid.table_ok());
                assert(self.table_ok()) by {
                    assert forall|ri: int| 0 <= ri < self.rules@.len() implies self.level1@[self.slot_of(
                        self.level0@[self.bucket_of(#[trigger] self.rules_view()[ri])],
                        self.rules_view()[ri],
                    )] == ri as u32 by {
                        assert(mid.level1@[mid.slot_of(
                            mid.level0@[mid.bucket_of(mid.rules_view()[ri])],
                            mid.rules_view()[ri],
                        )] == ri as u32);
                        assert(self.rules_view()[ri] == mid.rules_view()[ri]);
                        assert(self.bucket_of(self.rules_view()[ri]) == mid.bucket_of(
                            mid.rules_view()[ri],
                        ));
                        assert(forall|sd: u32, t: Seq<u8>|
                            #[trigger] self.slot_of(sd, t) == mid.slot_of(sd, t));
                    }
                }
            }
            true
        } else {
            false
        }
    }

    fn clear(&mut self) {
        self.ac.clear();
        self.rules.clear();
        self.level0.clear();
        self.level1.clear();
        self.level0_mask = 0;
        self.level1_mask = 0;
        self.built_tag = Ghost(false);
        proof {
            assert(self.rules_view() =~= Seq::<Seq<u8>>::empty());
            assert(self.rule_set() =~= Set::<Seq<u8>>::empty());
        }
    }
}

} // verus!
