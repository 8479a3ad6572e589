//! Path theory of a trie laid out as an arena: walks along explicitly
//! inserted edges, membership of class strings, and longest trie-suffixes.
//! The automaton's correctness argument lives on top of these lemmas.

use vstd::prelude::*;

verus! {

/// The shape of the trie: for each arena slot, its 53 children by symbol
/// class, `None` where no explicitly inserted edge exists.
pub type Edges = Seq<Seq<Option<int>>>;

/// One slot's child row: 53 entries, every child id in `[1, bound]`.
pub open spec fn row_wf(r: Seq<Option<int>>, bound: int) -> bool {
    &&& r.len() == 53
    &&& forall|c: int|
        0 <= c < 53 ==> ((#[trigger] r[c]) matches Some(m) ==> 1 <= m <= bound)
}

/// Arena-wide well-formedness: slots `0 ..= bound` are live nodes, every edge
/// points into `[1, bound]`.
pub open spec fn edges_wf(k: Edges, bound: int) -> bool {
    &&& 0 <= bound
    &&& bound < k.len()
    &&& forall|n: int| 0 <= n < k.len() ==> row_wf(#[trigger] k[n], bound)
}

/// A class string: every symbol below 53.
pub open spec fn path_wf(t: Seq<u8>) -> bool {
    forall|i: int| 0 <= i < t.len() ==> (#[trigger] t[i]) < 53
}

/// Follow the explicitly inserted edges spelling `t`, starting at node `n`.
pub open spec fn walk(k: Edges, n: int, t: Seq<u8>) -> Option<int>
    decreases t.len(),
{
    if t.len() == 0 {
        Some(n)
    } else if 0 <= n < k.len() && t[0] < 53 {
        match k[n][t[0] as int] {
            Some(m) => walk(k, m, t.drop_first()),
            None => None,
        }
    } else {
        None
    }
}

/// Whether the class string `t` is a path of the trie, read from the root.
pub open spec fn in_trie(k: Edges, t: Seq<u8>) -> bool {
    walk(k, 0, t) is Some
}

/// The node the path `t` ends at (meaningful when `in_trie(k, t)`).
pub open spec fn node_at(k: Edges, t: Seq<u8>) -> int {
    match walk(k, 0, t) {
        Some(n) => n,
        None => 0,
    }
}

/// The longest suffix of `t` that is a path of the trie. Total because the
/// empty string is always a path.
pub open spec fn lsuf(k: Edges, t: Seq<u8>) -> Seq<u8>
    decreases t.len(),
{
    if in_trie(k, t) || t.len() == 0 {
        t
    } else {
        lsuf(k, t.drop_first())
    }
}

/// A walk decomposes over concatenation.
pub proof fn lemma_walk_append(k: Edges, n: int, s: Seq<u8>, t: Seq<u8>)
    ensures
        walk(k, n, s + t) == (match walk(k, n, s) {
            Some(m) => walk(k, m, t),
            None => None::<int>,
        }),
    decreases s.len(),
{
    if s.len() == 0 {
        assert(s + t =~= t);
    } else {
        assert((s + t)[0] == s[0]);
        if 0 <= n < k.len() && s[0] < 53 {
            match k[n][s[0] as int] {
                Some(m) => {
                    assert((s + t).drop_first() =~= s.drop_first() + t);
                    lemma_walk_append(k, m, s.drop_first(), t);
                },
                None => {},
            }
        }
    }
}

/// Paths are closed under prefixes.
pub proof fn lemma_in_trie_prefix(k: Edges, t: Seq<u8>, i: int)
    requires
        in_trie(k, t),
        0 <= i <= t.len(),
    ensures
        in_trie(k, t.take(i)),
{
    lemma_walk_append(k, 0, t.take(i), t.skip(i));
    assert(t.take(i) + t.skip(i) =~= t);
}

/// A walk that starts at a live node ends at a live node.
pub proof fn lemma_walk_in_range(k: Edges, bound: int, n: int, t: Seq<u8>, m: int)
    requires
        edges_wf(k, bound),
        0 <= n <= bound,
        walk(k, n, t) == Some(m),
    ensures
        0 <= m <= bound,
    decreases t.len(),
{
    if t.len() > 0 {
        match k[n][t[0] as int] {
            Some(m2) => {
                lemma_walk_in_range(k, bound, m2, t.drop_first(), m);
            },
            None => {},
        }
    }
}

/// What `lsuf` returns: a suffix of `t`, a path, and the longest such.
pub proof fn lemma_lsuf_props(k: Edges, t: Seq<u8>)
    ensures
        in_trie(k, lsuf(k, t)),
        lsuf(k, t).is_suffix_of(t),
        forall|u: Seq<u8>|
            u.is_suffix_of(t) && #[trigger] in_trie(k, u) ==> u.len() <= lsuf(k, t).len(),
    decreases t.len(),
{
    if in_trie(k, t) || t.len() == 0 {
        assert(t.is_suffix_of(t)) by {
            assert(t =~= t.subrange(0, t.len() as int));
        }
    } else {
        lemma_lsuf_props(k, t.drop_first());
        assert(lsuf(k, t) == lsuf(k, t.drop_first()));
        assert(lsuf(k, t).is_suffix_of(t)) by {
            lemma_suffix_drop_first(k, t, lsuf(k, t));
        }
        assert forall|u: Seq<u8>| u.is_suffix_of(t) && #[trigger] in_trie(k, u) implies u.len()
            <= lsuf(k, t).len() by {
            if u.len() == t.len() {
                assert(u =~= t);
            } else {
                assert(u.is_suffix_of(t.drop_first())) by {
                    lemma_proper_suffix(u, t);
                }
            }
        }
    }
}

/// A suffix of the tail is a suffix of the whole.
proof fn lemma_suffix_drop_first(k: Edges, t: Seq<u8>, u: Seq<u8>)
    requires
        t.len() > 0,
        u.is_suffix_of(t.drop_first()),
    ensures
        u.is_suffix_of(t),
{
    assert(t.drop_first().subrange(t.drop_first().len() - u.len(), t.drop_first().len() as int)
        =~= t.subrange(t.len() - u.len(), t.len() as int));
}

/// A proper suffix of `t` is a suffix of `t.drop_first()`.
pub proof fn lemma_proper_suffix(u: Seq<u8>, t: Seq<u8>)
    requires
        u.is_suffix_of(t),
        u.len() < t.len(),
    ensures
        u.is_suffix_of(t.drop_first()),
{
    assert(t.subrange(t.len() - u.len(), t.len() as int) =~= t.drop_first().subrange(
        t.drop_first().len() - u.len(),
        t.drop_first().len() as int,
    ));
}

/// Suffixes of one string are totally ordered: the shorter is a suffix of the
/// longer.
pub proof fn lemma_suffix_total(a: Seq<u8>, b: Seq<u8>, t: Seq<u8>)
    requires
        a.is_suffix_of(t),
        b.is_suffix_of(t),
        a.len() <= b.len(),
    ensures
        a.is_suffix_of(b),
{
    assert(t.subrange(t.len() - a.len(), t.len() as int) =~= t.subrange(
        t.len() - b.len(),
        t.len() as int,
    ).subrange(b.len() - a.len(), b.len() as int));
}

/// Suffix-of is transitive.
pub proof fn lemma_suffix_trans(a: Seq<u8>, b: Seq<u8>, c: Seq<u8>)
    requires
        a.is_suffix_of(b),
        b.is_suffix_of(c),
    ensures
        a.is_suffix_of(c),
{
    assert(c.subrange(c.len() - a.len(), c.len() as int) =~= c.subrange(
        c.len() - b.len(),
        c.len() as int,
    ).subrange(b.len() - a.len(), b.len() as int));
}

/// Every trie-path suffix of `t` is a suffix of the longest one.
pub proof fn lemma_suffix_of_lsuf(k: Edges, t: Seq<u8>, u: Seq<u8>)
    requires
        u.is_suffix_of(t),
        in_trie(k, u),
    ensures
        u.is_suffix_of(lsuf(k, t)),
{
    lemma_lsuf_props(k, t);
    lemma_suffix_total(u, lsuf(k, t), t);
}

/// Appending one symbol to suffixes keeps the suffix relation.
pub proof fn lemma_suffix_push(a: Seq<u8>, b: Seq<u8>, c: u8)
    requires
        a.is_suffix_of(b),
    ensures
        a.push(c).is_suffix_of(b.push(c)),
{
    assert(a.push(c) =~= b.push(c).subrange(
        b.push(c).len() - a.push(c).len(),
        b.push(c).len() as int,
    ));
}

/// A nonempty suffix of `t.push(c)` ends in `c` and drops to a suffix of `t`.
pub proof fn lemma_suffix_of_push(u: Seq<u8>, t: Seq<u8>, c: u8)
    requires
        u.is_suffix_of(t.push(c)),
        u.len() > 0,
    ensures
        u.last() == c,
        u.drop_last().is_suffix_of(t),
{
    assert(u.drop_last() =~= t.subrange(t.len() - (u.len() - 1), t.len() as int));
}

/// The master step: the longest trie-suffix after one more symbol depends
/// only on the longest trie-suffix so far.
pub proof fn lemma_lsuf_step(k: Edges, t: Seq<u8>, c: u8)
    ensures
        lsuf(k, t.push(c)) == lsuf(k, lsuf(k, t).push(c)),
{
    let a = lsuf(k, t.push(c));
    let b = lsuf(k, lsuf(k, t).push(c));
    lemma_lsuf_props(k, t);
    lemma_lsuf_props(k, t.push(c));
    lemma_lsuf_props(k, lsuf(k, t).push(c));
    // b is a trie-path suffix of t.push(c), so b.len() <= a.len()
    lemma_suffix_push(lsuf(k, t), t, c);
    lemma_suffix_trans(b, lsuf(k, t).push(c), t.push(c));
    // a is a trie-path suffix of lsuf(k, t).push(c), so a.len() <= b.len()
    if a.len() == 0 {
        assert(a =~= lsuf(k, t).push(c).subrange(
            lsuf(k, t).push(c).len() as int,
            lsuf(k, t).push(c).len() as int,
        ));
        assert(a.is_suffix_of(lsuf(k, t).push(c)));
    } else {
        lemma_suffix_of_push(a, t, c);
        assert(in_trie(k, a.drop_last())) by {
            lemma_in_trie_prefix(k, a, a.len() - 1);
            assert(a.take(a.len() - 1) =~= a.drop_last());
        }
        lemma_suffix_of_lsuf(k, t, a.drop_last());
        lemma_suffix_push(a.drop_last(), lsuf(k, t), c);
        assert(a.drop_last().push(a.last()) =~= a);
    }
    assert(a.len() <= b.len());
    // equal length suffixes of the same string are equal
    lemma_suffix_total(b, a, t.push(c));
    assert(b =~= a);
}

/// The fail-link step: for a nonempty path `t` whose extension `t.push(c)`
/// is no path, the longest trie-suffix of the extension equals that of the
/// longest proper trie-suffix of `t` extended by `c`.
pub proof fn lemma_lsuf_fail_step(k: Edges, t: Seq<u8>, c: u8)
    requires
        in_trie(k, t),
        t.len() > 0,
        !in_trie(k, t.push(c)),
    ensures
        lsuf(k, t.push(c)) == lsuf(k, lsuf(k, t.drop_first()).push(c)),
{
    let f = lsuf(k, t.drop_first());
    let a = lsuf(k, t.push(c));
    let b = lsuf(k, f.push(c));
    lemma_lsuf_props(k, t.drop_first());
    lemma_lsuf_props(k, t.push(c));
    lemma_lsuf_props(k, f.push(c));
    // b is a trie-path suffix of t.push(c)
    lemma_suffix_drop_first(k, t, f);
    lemma_suffix_push(f, t, c);
    lemma_suffix_trans(b, f.push(c), t.push(c));
    // a is a trie-path suffix of f.push(c): a != t.push(c), so its front part
    // is a proper suffix of t, hence a suffix of f.
    if a.len() == 0 {
        assert(a =~= f.push(c).subrange(f.push(c).len() as int, f.push(c).len() as int));
        assert(a.is_suffix_of(f.push(c)));
    } else {
        if a.len() == t.push(c).len() {
            assert(a =~= t.push(c));
        }
        assert(a.len() < t.push(c).len());
        lemma_suffix_of_push(a, t, c);
        assert(in_trie(k, a.drop_last())) by {
            lemma_in_trie_prefix(k, a, a.len() - 1);
            assert(a.take(a.len() - 1) =~= a.drop_last());
        }
        assert(a.drop_last().len() < t.len());
        lemma_proper_suffix(a.drop_last(), t);
        lemma_suffix_of_lsuf(k, t.drop_first(), a.drop_last());
        lemma_suffix_push(a.drop_last(), f, c);
        assert(a.drop_last().push(a.last()) =~= a);
    }
    assert(a.len() <= b.len());
    lemma_suffix_total(b, a, t.push(c));
    assert(b =~= a);
}

/// Growing the arena by an edgeless slot changes no walk from a live node.
pub proof fn lemma_walk_push_row(k: Edges, bound: int, row: Seq<Option<int>>, n: int, t: Seq<u8>)
    requires
        edges_wf(k, bound),
        forall|c: int| 0 <= c < row.len() ==> (#[trigger] row[c]) is None,
        0 <= n < k.len(),
    ensures
        walk(k.push(row), n, t) == walk(k, n, t),
    decreases t.len(),
{
    let k2 = k.push(row);
    if t.len() > 0 && t[0] < 53 {
        match k[n][t[0] as int] {
            Some(m) => {
                lemma_walk_push_row(k, bound, row, m, t.drop_first());
            },
            None => {},
        }
    }
}

/// Adding one edge from a live node to a fresh edgeless slot: walks from live
/// nodes are kept, and exactly the one new path (the live node's own paths
/// extended by the new symbol) appears, ending at the fresh slot.
pub proof fn lemma_walk_add_edge(
    k: Edges,
    bound: int,
    node: int,
    c: int,
    f: int,
    n: int,
    t: Seq<u8>,
)
    requires
        edges_wf(k, bound),
        0 <= node <= bound,
        0 <= c < 53,
        k[node][c] is None,
        bound < f < k.len(),
        forall|c2: int| 0 <= c2 < 53 ==> (#[trigger] k[f][c2]) is None,
        0 <= n <= bound,
    ensures
        walk(k.update(node, k[node].update(c, Some(f))), n, t) == (if walk(k, n, t) is Some {
            walk(k, n, t)
        } else if t.len() > 0 && t.last() == c && walk(k, n, t.drop_last()) == Some(node) {
            Some(f)
        } else {
            None::<int>
        }),
    decreases t.len(),
{
    let k2 = k.update(node, k[node].update(c, Some(f)));
    if t.len() == 0 {
    } else {
        let h = t[0] as int;
        let rest = t.drop_first();
        if !(0 <= h < 53) {
            // dead in both tries; and the special case cannot apply
            if t.len() == 1 {
            } else {
                assert(t.drop_last()[0] == t[0]);
            }
        } else if n == node && h == c {
            // the new edge
            assert(k2[n][h] == Some(f));
            assert(k[n][h] is None);
            if rest.len() == 0 {
                assert(t =~= Seq::<u8>::empty().push(t[0]));
                assert(t.last() == c);
                assert(t.drop_last() =~= Seq::<u8>::empty());
                assert(walk(k2, n, t) == Some(f));
            } else {
                // from f, everything is edgeless: the walk dies
                assert(walk(k2, f, rest) is None) by {
                    assert(k2[f] =~= k[f]);
                    if rest[0] < 53 {
                        assert(k2[f][rest[0] as int] is None);
                    }
                }
                // and in k the walk already died at (node, c)
                assert(walk(k, n, t) is None);
                // the special case needs walk(k, n, t.drop_last()) == Some(node),
                // which dies at the same missing edge
                if t.len() > 1 && t.last() == c {
                    assert(t.drop_last()[0] == t[0]);
                    assert(t.drop_last().drop_first() =~= rest.drop_last());
                    assert(walk(k, n, t.drop_last()) is None);
                }
            }
        } else {
            // an old edge (or none)
            assert(k2[n] =~= if n == node {
                k[n].update(c, Some(f))
            } else {
                k[n]
            });
            assert(k2[n][h] == k[n][h]);
            match k[n][h] {
                Some(m) => {
                    lemma_walk_add_edge(k, bound, node, c, f, m, rest);
                    if t.len() == 1 {
                    } else {
                        assert(t.drop_last()[0] == t[0]);
                        assert(t.drop_last().drop_first() =~= rest.drop_last());
                        assert(t.last() == rest.last());
                    }
                },
                None => {
                    if t.len() == 1 {
                        // t.drop_last() is empty: walk gives Some(n), n != node or h != c
                        assert(t.drop_last() =~= Seq::<u8>::empty());
                        assert(t.last() == t[0]);
                    } else {
                        assert(t.drop_last()[0] == t[0]);
                        assert(walk(k, n, t.drop_last()) is None);
                    }
                },
            }
        }
    }
}

/// Reversal is an involution.
pub proof fn lemma_reverse_reverse(s: Seq<u8>)
    ensures
        s.reverse().reverse() == s,
{
    assert(s.reverse().reverse() =~= s);
}

/// Reversing after appending one element in front appends it at the back.
pub proof fn lemma_reverse_cons(c: u8, s: Seq<u8>)
    ensures
        (seq![c] + s).reverse() == s.reverse().push(c),
{
    assert((seq![c] + s).reverse() =~= s.reverse().push(c));
}

/// Mirror image of the suffix relation: a suffix reads as a prefix of the
/// reversed strings.
pub proof fn lemma_reverse_suffix_prefix(a: Seq<u8>, b: Seq<u8>)
    ensures
        a.is_suffix_of(b) <==> a.reverse().is_prefix_of(b.reverse()),
{
    if a.is_suffix_of(b) {
        assert(a.reverse() =~= b.reverse().subrange(0, a.reverse().len() as int));
    }
    if a.reverse().is_prefix_of(b.reverse()) {
        assert(a.reverse().len() == a.len());
        assert(b.reverse().len() == b.len());
        assert forall|j: int| 0 <= j < a.len() implies a[j] == b[b.len() - a.len() + j] by {
            assert(a.reverse()[a.len() - 1 - j] == a[j]);
            assert(a.reverse()[a.len() - 1 - j] == b.reverse().subrange(0, a.len() as int)[a.len()
                - 1 - j]);
            assert(b.reverse()[a.len() - 1 - j] == b[b.len() - 1 - (a.len() - 1 - j)]);
        }
        assert(a =~= b.subrange(b.len() - a.len(), b.len() as int));
    }
}

/// Any tail of a string is a suffix of it.
pub proof fn lemma_skip_is_suffix(b: Seq<u8>, i: int)
    requires
        0 <= i <= b.len(),
    ensures
        b.skip(i).is_suffix_of(b),
{
    assert(b.skip(i) =~= b.subrange(b.len() - b.skip(i).len(), b.len() as int));
}

/// The reverse of a prefix is a suffix of the reverse.
pub proof fn lemma_reverse_take_skip(s: Seq<u8>, i: int)
    requires
        0 <= i <= s.len(),
    ensures
        s.reverse().take(i) == s.skip(s.len() - i).reverse(),
{
    assert(s.reverse().take(i) =~= s.skip(s.len() - i).reverse());
}

} // verus!
