//! Laws that hold across the engines: what a query answer depends on, what
//! `clear` leaves behind, and when the three engines agree.

use crate::ac_automaton::ACAutomaton;
use crate::ac_automaton::HybridMatcher;
use crate::alphabet::classes;
use crate::alphabet::cls;
use crate::alphabet::lemma_dot_class;
use crate::alphabet::DOT_BYTE;
use crate::alphabet::DOT_CLASS;
use crate::enabled;
use crate::matching::ac_matches;
use crate::matching::ac_step;
use crate::matching::entry_matches;
use crate::matching::table_entry_matches;
use crate::matching::table_matches;
use crate::matching::table_step;
use crate::mph::MphMatcher;
use crate::MatchType;
use vstd::prelude::*;

verus! {

broadcast use {crate::alphabet::lemma_classes_len, crate::alphabet::lemma_classes_index};

/// Build determinism for the automaton engine: a query answer is a function
/// of the annotation map alone, so two builds over the same insertions (which
/// leave equal maps, and which `build` preserves) answer every query alike.
pub proof fn lemma_ac_query_deterministic(a: ACAutomaton, b: ACAutomaton, q: Seq<u8>)
    requires
        a.model() == b.model(),
    ensures
        a.ac_matches_spec(q) == b.ac_matches_spec(q),
{
}

/// Build determinism for the hybrid engine: a query answer is a function of
/// the exact-rule table and the substring content alone.
pub proof fn lemma_hybrid_query_deterministic(a: HybridMatcher, b: HybridMatcher, q: Seq<u8>)
    requires
        a.table() == b.table(),
        a.sub_model() == b.sub_model(),
        a.sub_nodes() == b.sub_nodes(),
    ensures
        a.hy_matches_spec(q) == b.hy_matches_spec(q),
{
}

/// Build determinism for the perfect-hash engine: a query answer is a
/// function of the rule set and the substring content alone, whatever seeds
/// the table search settled on.
pub proof fn lemma_mph_query_deterministic(a: MphMatcher, b: MphMatcher, q: Seq<u8>)
    requires
        a.rule_set() == b.rule_set(),
        a.sub_model() == b.sub_model(),
        a.sub_nodes() == b.sub_nodes(),
    ensures
        a.mph_matches_spec(q) == b.mph_matches_spec(q),
{
}

/// Build determinism for the perfect-hash construction itself: whether the
/// two-level build succeeds is decided by the rule content alone, so two
/// well-formed engines holding the same rules either both build or both
/// refuse.
pub proof fn lemma_mph_build_deterministic(a: MphMatcher, b: MphMatcher)
    requires
        a.mph_inv(),
        b.mph_inv(),
        a.rule_set() == b.rule_set(),
    ensures
        crate::mph::mph_build_accepts(a.rules_view()) == crate::mph::mph_build_accepts(
            b.rules_view(),
        ),
{
    crate::mph::lemma_rules_view_determined(a, b);
}

/// Idempotent clear for the automaton engine: a cleared instance carries the
/// same (empty) content as a fresh one, so re-inserting and building gives
/// the same answers a fresh instance would give.
pub proof fn lemma_ac_cleared_is_fresh(a: ACAutomaton, b: ACAutomaton, q: Seq<u8>)
    requires
        a.fresh_spec(),
        b.fresh_spec(),
    ensures
        a.model() == b.model(),
        a.nodes() == b.nodes(),
        a.ac_matches_spec(q) == b.ac_matches_spec(q),
{
}

/// Idempotent clear for the hybrid engine.
pub proof fn lemma_hybrid_cleared_is_fresh(a: HybridMatcher, b: HybridMatcher, q: Seq<u8>)
    requires
        a.hy_fresh(),
        b.hy_fresh(),
    ensures
        a.table() == b.table(),
        a.sub_model() == b.sub_model(),
        a.hy_matches_spec(q) == b.hy_matches_spec(q),
{
}

/// Idempotent clear for the perfect-hash engine.
pub proof fn lemma_mph_cleared_is_fresh(a: MphMatcher, b: MphMatcher, q: Seq<u8>)
    requires
        a.mph_fresh(),
        b.mph_fresh(),
    ensures
        a.rule_set() == b.rule_set(),
        a.sub_model() == b.sub_model(),
        a.mph_matches_spec(q) == b.mph_matches_spec(q),
{
}

/// The hybrid and perfect-hash engines agree on every query whenever they
/// hold the same rules: their query semantics are the same function of the
/// exact-rule set and the substring content.
pub proof fn lemma_hybrid_mph_agree(h: HybridMatcher, m: MphMatcher, q: Seq<u8>)
    requires
        h.table() == m.rule_set(),
        h.sub_model() == m.sub_model(),
        h.sub_nodes() == m.sub_nodes(),
    ensures
        h.hy_matches_spec(q) == m.mph_matches_spec(q),
{
}


/// A byte whose alphabet class is its own: lowercase letters, digits and the
/// seventeen punctuation symbols. Distinct such bytes have distinct classes,
/// so matching over classes coincides with matching over bytes.
pub open spec fn canon_byte(b: u8) -> bool {
    (97 <= b && b <= 122) || (48 <= b && b <= 57) || b == 33 || b == 36 || b == 38 || b == 39
        || b == 40 || b == 41 || b == 42 || b == 43 || b == 44 || b == 59 || b == 61 || b == 58
        || b == 37 || b == 45 || b == 46 || b == 95 || b == 126
}

/// A byte string made only of self-class bytes.
pub open spec fn canon(s: Seq<u8>) -> bool {
    forall|i: int| 0 <= i < s.len() ==> canon_byte(#[trigger] s[i])
}

/// Class folding is injective on self-class bytes.
pub proof fn lemma_canon_byte_inj(x: u8, y: u8)
    requires
        canon_byte(x),
        canon_byte(y),
        cls(x) == cls(y),
    ensures
        x == y,
{
}

/// Class folding is injective on self-class byte strings.
pub proof fn lemma_classes_inj(a: Seq<u8>, b: Seq<u8>)
    requires
        canon(a),
        canon(b),
        classes(a) == classes(b),
    ensures
        a == b,
{
    assert forall|i: int| 0 <= i < a.len() implies a[i] == b[i] by {
        assert(classes(a)[i] == cls(a[i]));
        assert(classes(b)[i] == cls(b[i]));
        lemma_canon_byte_inj(a[i], b[i]);
    }
    assert(a =~= b);
}

/// Folding to classes preserves the suffix relation.
pub proof fn lemma_classes_suffix(a: Seq<u8>, b: Seq<u8>)
    requires
        a.is_suffix_of(b),
    ensures
        classes(a).is_suffix_of(classes(b)),
{
    assert(classes(a) =~= classes(b).subrange(
        classes(b).len() - classes(a).len(),
        classes(b).len() as int,
    ));
}

/// On self-class strings, a dot-headed class suffix reflects back to a
/// dot-headed byte suffix.
pub proof fn lemma_classes_suffix_rev(p: Seq<u8>, q: Seq<u8>)
    requires
        canon(p),
        canon(q),
        (seq![DOT_CLASS] + classes(p)).is_suffix_of(classes(q)),
    ensures
        (seq![DOT_BYTE] + p).is_suffix_of(q),
{
    let m = 1 + p.len() as int;
    assert(classes(q).len() == q.len());
    let t = q.skip(q.len() - m);
    assert forall|i: int| 0 <= i < m implies cls(t[i]) == (seq![DOT_CLASS] + classes(p))[i] by {
        assert((seq![DOT_CLASS] + classes(p))[i] == classes(q).subrange(
            classes(q).len() - m,
            classes(q).len() as int,
        )[i]);
        assert(classes(q)[q.len() - m + i] == cls(q[q.len() - m + i]));
        assert(t[i] == q[q.len() - m + i]);
    }
    assert(cls(t[0]) == DOT_CLASS) by {
        assert(cls(t[0]) == (seq![DOT_CLASS] + classes(p))[0]);
        assert((seq![DOT_CLASS] + classes(p))[0] == DOT_CLASS);
    }
    assert(t[0] == DOT_BYTE) by {
        lemma_dot_class(t[0]);
    }
    assert(classes(t.drop_first()) =~= classes(p)) by {
        assert forall|i: int| 0 <= i < p.len() implies classes(t.drop_first())[i] == classes(
            p,
        )[i] by {
            assert(t.drop_first()[i] == t[i + 1]);
            assert(classes(t.drop_first())[i] == cls(t.drop_first()[i]));
            assert(cls(t[i + 1]) == (seq![DOT_CLASS] + classes(p))[i + 1]);
            assert((seq![DOT_CLASS] + classes(p))[i + 1] == classes(p)[i]);
        }
    }
    assert(canon(t.drop_first())) by {
        assert(forall|i: int| 0 <= i < t.drop_first().len() ==> #[trigger] t.drop_first()[i] == q[
            q.len() - m + 1 + i]);
    }
    lemma_classes_inj(t.drop_first(), p);
    assert(t =~= seq![DOT_BYTE] + p);
    assert(t.is_suffix_of(q)) by {
        assert(t =~= q.subrange(q.len() - t.len(), q.len() as int));
    }
}

/// One rule's contribution to the automaton's annotation map: its class key
/// (or keys, for a domain rule) with the stored annotation.
pub open spec fn ann_from(r: (Seq<u8>, MatchType), k: Seq<u8>, v: MatchType) -> bool {
    match r.1 {
        MatchType::Full(b) => k == classes(r.0) && v == MatchType::Full(b),
        MatchType::SubStr(b) => k == classes(r.0) && v == MatchType::SubStr(b),
        MatchType::Domain(b) => (k == classes(r.0) && v == MatchType::Full(true)) || (k == seq![
            DOT_CLASS,
        ] + classes(r.0) && v == MatchType::Domain(b)),
    }
}

/// One rule's contribution to a hash engine's exact-rule table.
pub open spec fn tbl_from(r: (Seq<u8>, MatchType), s: Seq<u8>) -> bool {
    match r.1 {
        MatchType::SubStr(_) => false,
        MatchType::Full(_) => s == r.0,
        MatchType::Domain(_) => s == r.0 || s == seq![DOT_BYTE] + r.0,
    }
}

/// One rule's contribution to a hash engine's substring automaton.
pub open spec fn sub_from(r: (Seq<u8>, MatchType), k: Seq<u8>, v: MatchType) -> bool {
    r.1 is SubStr && k == classes(r.0) && v == r.1
}

/// The automaton engine's annotation map after a sequence of insertions.
pub open spec fn ac_fold(rs: Seq<(Seq<u8>, MatchType)>) -> Map<Seq<u8>, MatchType>
    decreases rs.len(),
{
    if rs.len() == 0 {
        Map::empty()
    } else {
        ac_step(ac_fold(rs.drop_last()), classes(rs.last().0), rs.last().1)
    }
}

/// A hash engine's exact-rule table after a sequence of insertions.
pub open spec fn tbl_fold(rs: Seq<(Seq<u8>, MatchType)>) -> Set<Seq<u8>>
    decreases rs.len(),
{
    if rs.len() == 0 {
        Set::empty()
    } else {
        table_step(tbl_fold(rs.drop_last()), rs.last().0, rs.last().1)
    }
}

/// A hash engine's substring annotation map after a sequence of insertions.
pub open spec fn sub_fold(rs: Seq<(Seq<u8>, MatchType)>) -> Map<Seq<u8>, MatchType>
    decreases rs.len(),
{
    if rs.len() == 0 {
        Map::empty()
    } else if rs.last().1 is SubStr {
        ac_step(sub_fold(rs.drop_last()), classes(rs.last().0), rs.last().1)
    } else {
        sub_fold(rs.drop_last())
    }
}

/// Whether the sequence holds a substring rule.
pub open spec fn has_sub(rs: Seq<(Seq<u8>, MatchType)>) -> bool {
    exists|i: int| 0 <= i < rs.len() && (#[trigger] rs[i]).1 is SubStr
}

/// The insertion sequences the cross-engine law speaks of: nonempty
/// patterns of self-class bytes, none headed by a dot, pairwise distinct,
/// all rules enabled.
pub open spec fn rules_wf(rs: Seq<(Seq<u8>, MatchType)>) -> bool {
    &&& forall|i: int|
        0 <= i < rs.len() ==> {
            let r = #[trigger] rs[i];
            &&& r.0.len() > 0
            &&& r.0[0] != DOT_BYTE
            &&& canon(r.0)
            &&& enabled(r.1)
        }
    &&& forall|i: int, j: int| 0 <= i < j < rs.len() ==> (#[trigger] rs[i]).0 != (#[trigger] rs[j]).0
}

/// Distinct admissible patterns never produce the same class key.
proof fn lemma_keys_distinct(p1: Seq<u8>, p2: Seq<u8>)
    requires
        p1.len() > 0,
        p1[0] != DOT_BYTE,
        canon(p1),
        p2.len() > 0,
        p2[0] != DOT_BYTE,
        canon(p2),
    ensures
        p1 != p2 ==> classes(p1) != classes(p2),
        classes(p1) != seq![DOT_CLASS] + classes(p2),
        p1 != p2 ==> seq![DOT_CLASS] + classes(p1) != seq![DOT_CLASS] + classes(p2),
{
    if p1 != p2 && classes(p1) == classes(p2) {
        lemma_classes_inj(p1, p2);
    }
    if classes(p1) == seq![DOT_CLASS] + classes(p2) {
        assert(classes(p1)[0] == cls(p1[0]));
        assert((seq![DOT_CLASS] + classes(p2))[0] == DOT_CLASS);
        lemma_dot_class(p1[0]);
    }
    if p1 != p2 && seq![DOT_CLASS] + classes(p1) == seq![DOT_CLASS] + classes(p2) {
        assert(classes(p1) =~= (seq![DOT_CLASS] + classes(p1)).skip(1));
        assert(classes(p2) =~= (seq![DOT_CLASS] + classes(p2)).skip(1));
        assert(classes(p1) == classes(p2));
        lemma_classes_inj(p1, p2);
    }
}

/// What the folded annotation map holds: exactly the rules' contributions,
/// each intact because admissible rules never clash on a key.
proof fn lemma_ac_fold_content(rs: Seq<(Seq<u8>, MatchType)>, k: Seq<u8>)
    requires
        rules_wf(rs),
    ensures
        ac_fold(rs).contains_key(k) ==> exists|i: int|
            0 <= i < rs.len() && #[trigger] ann_from(rs[i], k, ac_fold(rs)[k]),
        forall|i: int, v: MatchType|
            0 <= i < rs.len() && #[trigger] ann_from(rs[i], k, v) ==> ac_fold(rs).contains_key(k)
                && ac_fold(rs)[k] == v,
    decreases rs.len(),
{
    if rs.len() > 0 {
        let rest = rs.drop_last();
        let r = rs.last();
        assert(rules_wf(rest)) by {
            assert(forall|i: int| 0 <= i < rest.len() ==> rest[i] == #[trigger] rs[i]);
        }
        lemma_ac_fold_content(rest, k);
        let m0 = ac_fold(rest);
        let m1 = ac_fold(rs);
        // the last rule's keys are fresh with respect to every earlier rule
        assert forall|i: int| 0 <= i < rest.len() implies ((#[trigger] rs[i]).0 != r.0 && classes(
            rs[i].0,
        ) != classes(r.0) && classes(rs[i].0) != seq![DOT_CLASS] + classes(r.0) && seq![DOT_CLASS]
            + classes(rs[i].0) != classes(r.0) && seq![DOT_CLASS] + classes(rs[i].0) != seq![
            DOT_CLASS,
        ] + classes(r.0)) by {
            assert(rs[rs.len() - 1] == r);
            lemma_keys_distinct(rs[i].0, r.0);
            lemma_keys_distinct(r.0, rs[i].0);
        }
        assert(classes(r.0) != seq![DOT_CLASS] + classes(r.0)) by {
            lemma_keys_distinct(r.0, r.0);
        }
        assert forall|i: int, v: MatchType|
            0 <= i < rs.len() && #[trigger] ann_from(rs[i], k, v) implies m1.contains_key(k)
            && m1[k] == v by {
            if i == rs.len() - 1 {
                assert(rs[i] == r);
            } else {
                assert(rest[i] == rs[i]);
                assert(m0.contains_key(k) && m0[k] == v);
                // k is one of rule i's keys, hence none of the last rule's
                match rs[i].1 {
                    MatchType::Full(_) => {},
                    MatchType::SubStr(_) => {},
                    MatchType::Domain(_) => {},
                }
                assert(k != classes(r.0) && k != seq![DOT_CLASS] + classes(r.0));
            }
        }
        if m1.contains_key(k) {
            if k == classes(r.0) || (r.1 is Domain && k == seq![DOT_CLASS] + classes(r.0)) {
                assert(exists|i: int|
                    0 <= i < rs.len() && #[trigger] ann_from(rs[i], k, m1[k])) by {
                    assert(ann_from(rs[rs.len() - 1], k, m1[k]));
                }
            } else {
                assert(m0.contains_key(k) && m0[k] == m1[k]);
                let i = choose|i: int|
                    0 <= i < rest.len() && #[trigger] ann_from(rest[i], k, m0[k]);
                assert(ann_from(rs[i], k, m1[k]));
            }
        }
    }
}

/// What the folded exact-rule table holds: exactly the rules' byte strings.
proof fn lemma_tbl_fold_content(rs: Seq<(Seq<u8>, MatchType)>, s: Seq<u8>)
    ensures
        tbl_fold(rs).contains(s) <==> exists|i: int| 0 <= i < rs.len() && #[trigger] tbl_from(
            rs[i],
            s,
        ),
    decreases rs.len(),
{
    if rs.len() > 0 {
        let rest = rs.drop_last();
        let r = rs.last();
        lemma_tbl_fold_content(rest, s);
        if tbl_fold(rs).contains(s) {
            if !tbl_fold(rest).contains(s) {
                assert(tbl_from(rs[rs.len() - 1], s));
            } else {
                let i = choose|i: int| 0 <= i < rest.len() && #[trigger] tbl_from(rest[i], s);
                assert(tbl_from(rs[i], s));
            }
        }
        if exists|i: int| 0 <= i < rs.len() && #[trigger] tbl_from(rs[i], s) {
            let i = choose|i: int| 0 <= i < rs.len() && #[trigger] tbl_from(rs[i], s);
            if i == rs.len() - 1 {
                assert(rs[i] == r);
            } else {
                assert(rest[i] == rs[i]);
                assert(tbl_fold(rest).contains(s));
            }
            assert(tbl_fold(rs).contains(s));
        }
    }
}

/// What the folded substring map holds: the substring rules' contributions.
proof fn lemma_sub_fold_content(rs: Seq<(Seq<u8>, MatchType)>, k: Seq<u8>)
    requires
        rules_wf(rs),
    ensures
        sub_fold(rs).contains_key(k) ==> exists|i: int|
            0 <= i < rs.len() && #[trigger] sub_from(rs[i], k, sub_fold(rs)[k]),
        forall|i: int, v: MatchType|
            0 <= i < rs.len() && #[trigger] sub_from(rs[i], k, v) ==> sub_fold(rs).contains_key(k)
                && sub_fold(rs)[k] == v,
    decreases rs.len(),
{
    if rs.len() > 0 {
        let rest = rs.drop_last();
        let r = rs.last();
        assert(rules_wf(rest)) by {
            assert(forall|i: int| 0 <= i < rest.len() ==> rest[i] == #[trigger] rs[i]);
        }
        lemma_sub_fold_content(rest, k);
        let m0 = sub_fold(rest);
        let m1 = sub_fold(rs);
        assert forall|i: int| 0 <= i < rest.len() implies classes((#[trigger] rs[i]).0) != classes(
            r.0,
        ) || rs[i].0 == r.0 by {
            assert(rs[rs.len() - 1] == r);
            if rs[i].0 != r.0 {
                lemma_keys_distinct(rs[i].0, r.0);
            }
        }
        assert forall|i: int, v: MatchType|
            0 <= i < rs.len() && #[trigger] sub_from(rs[i], k, v) implies m1.contains_key(k)
            && m1[k] == v by {
            if i == rs.len() - 1 {
                assert(rs[i] == r);
            } else {
                assert(rest[i] == rs[i]);
                assert(m0.contains_key(k) && m0[k] == v);
                if r.1 is SubStr && k == classes(r.0) {
                    assert(rs[i].0 == r.0);
                    assert(false);
                }
            }
        }
        if m1.contains_key(k) {
            if r.1 is SubStr && k == classes(r.0) {
                assert(sub_from(rs[rs.len() - 1], k, m1[k]));
            } else {
                assert(m0.contains_key(k) && m0[k] == m1[k]);
                let i = choose|i: int|
                    0 <= i < rest.len() && #[trigger] sub_from(rest[i], k, m0[k]);
                assert(sub_from(rs[i], k, m1[k]));
            }
        }
    }
}

/// Round trip across engines, at the level of the folded rule content: for
/// any admissible insertion sequence and any query of self-class bytes, the
/// automaton engine's answer coincides with a hash engine's answer (exact
/// table first, then the substring automaton, which only engages when a
/// substring rule exists).
pub proof fn lemma_folds_agree(rs: Seq<(Seq<u8>, MatchType)>, q: Seq<u8>)
    requires
        rules_wf(rs),
        canon(q),
    ensures
        ac_matches(ac_fold(rs), classes(q)) == (table_matches(tbl_fold(rs), q) || (has_sub(rs)
            && ac_matches(sub_fold(rs), classes(q)))),
{
    let cq = classes(q);
    if ac_matches(ac_fold(rs), cq) {
        let k = choose|k: Seq<u8>|
            #[trigger] ac_fold(rs).contains_key(k) && entry_matches(k, ac_fold(rs)[k], cq);
        lemma_ac_fold_content(rs, k);
        let i = choose|i: int| 0 <= i < rs.len() && #[trigger] ann_from(rs[i], k, ac_fold(rs)[k]);
        let r = rs[i];
        match ac_fold(rs)[k] {
            MatchType::Full(b) => {
                // k is the class image of the rule's pattern and equals cq
                assert(k == classes(r.0));
                lemma_classes_inj(r.0, q);
                assert(r.0 == q);
                lemma_tbl_fold_content(rs, q);
                assert(tbl_from(rs[i], q));
                assert(table_entry_matches(q, q));
                assert(table_matches(tbl_fold(rs), q));
            },
            MatchType::Domain(b) => {
                assert(k == seq![DOT_CLASS] + classes(r.0));
                assert(k.is_suffix_of(cq));
                lemma_classes_suffix_rev(r.0, q);
                let s = seq![DOT_BYTE] + r.0;
                lemma_tbl_fold_content(rs, s);
                assert(tbl_from(rs[i], s));
                assert(s[0] == DOT_BYTE && s.len() > 0);
                assert(table_entry_matches(s, q));
                assert(table_matches(tbl_fold(rs), q));
            },
            MatchType::SubStr(b) => {
                assert(k == classes(r.0));
                assert(r.1 is SubStr) by {
                    match r.1 {
                        MatchType::Full(_) => {
                            assert(false);
                        },
                        MatchType::Domain(_) => {
                            assert(false);
                        },
                        MatchType::SubStr(_) => {},
                    }
                }
                assert(has_sub(rs));
                lemma_sub_fold_content(rs, k);
                assert(sub_from(rs[i], k, MatchType::SubStr(b)));
                assert(sub_fold(rs).contains_key(k) && sub_fold(rs)[k] == MatchType::SubStr(b));
                assert(entry_matches(k, sub_fold(rs)[k], cq));
                assert(ac_matches(sub_fold(rs), cq));
            },
        }
    }
    if table_matches(tbl_fold(rs), q) {
        let s = choose|s: Seq<u8>|
            #[trigger] tbl_fold(rs).contains(s) && table_entry_matches(s, q);
        lemma_tbl_fold_content(rs, s);
        let i = choose|i: int| 0 <= i < rs.len() && #[trigger] tbl_from(rs[i], s);
        let r = rs[i];
        lemma_ac_fold_content(rs, classes(r.0));
        lemma_ac_fold_content(rs, seq![DOT_CLASS] + classes(r.0));
        if s == r.0 {
            // a bare pattern never starts with a dot, so it must equal q
            assert(s == q) by {
                if s != q {
                    assert(s.len() > 0 && s[0] == DOT_BYTE && s.is_suffix_of(q));
                }
            }
            match r.1 {
                MatchType::Full(b) => {
                    assert(ann_from(rs[i], classes(r.0), MatchType::Full(b)));
                    assert(entry_matches(classes(r.0), MatchType::Full(b), cq));
                },
                MatchType::Domain(_) => {
                    assert(ann_from(rs[i], classes(r.0), MatchType::Full(true)));
                    assert(entry_matches(classes(r.0), MatchType::Full(true), cq));
                },
                MatchType::SubStr(_) => {
                    assert(false);
                },
            }
            assert(ac_matches(ac_fold(rs), cq));
        } else {
            assert(r.1 is Domain && s == seq![DOT_BYTE] + r.0) by {
                match r.1 {
                    MatchType::Full(_) => {
                        assert(false);
                    },
                    MatchType::SubStr(_) => {
                        assert(false);
                    },
                    MatchType::Domain(_) => {},
                }
            }
            // a dotted table entry matches as a suffix either way
            assert(s.is_suffix_of(q)) by {
                if s == q {
                    assert(s =~= q.subrange(q.len() - s.len(), q.len() as int));
                }
            }
            lemma_classes_suffix(s, q);
            assert(classes(s) =~= seq![DOT_CLASS] + classes(r.0)) by {
                assert(forall|i2: int|
                    0 <= i2 < s.len() ==> classes(s)[i2] == cls(#[trigger] s[i2]));
                assert(cls(s[0]) == DOT_CLASS) by {
                    lemma_dot_class(DOT_BYTE);
                }
                assert(forall|i2: int| 0 <= i2 < r.0.len() ==> s[i2 + 1] == #[trigger] r.0[i2]);
            }
            let b = match r.1 {
                MatchType::Domain(b) => b,
                _ => arbitrary(),
            };
            assert(ann_from(rs[i], seq![DOT_CLASS] + classes(r.0), MatchType::Domain(b)));
            assert(enabled(r.1));
            assert(entry_matches(seq![DOT_CLASS] + classes(r.0), MatchType::Domain(b), cq));
            assert(ac_matches(ac_fold(rs), cq));
        }
    }
    if has_sub(rs) && ac_matches(sub_fold(rs), cq) {
        let k = choose|k: Seq<u8>|
            #[trigger] sub_fold(rs).contains_key(k) && entry_matches(k, sub_fold(rs)[k], cq);
        lemma_sub_fold_content(rs, k);
        let i = choose|i: int|
            0 <= i < rs.len() && #[trigger] sub_from(rs[i], k, sub_fold(rs)[k]);
        lemma_ac_fold_content(rs, k);
        assert(ann_from(rs[i], k, sub_fold(rs)[k])) by {
            match rs[i].1 {
                MatchType::SubStr(_) => {},
                _ => {
                    assert(false);
                },
            }
        }
        assert(ac_fold(rs).contains_key(k) && ac_fold(rs)[k] == sub_fold(rs)[k]);
        assert(ac_matches(ac_fold(rs), cq));
    }
}

/// Round trip across engines, at the level of the engines themselves: three
/// engines whose contents arose from the same admissible insertion sequence
/// answer every self-class query identically.
pub proof fn lemma_engines_round_trip(
    a: ACAutomaton,
    h: HybridMatcher,
    m: MphMatcher,
    rs: Seq<(Seq<u8>, MatchType)>,
    q: Seq<u8>,
)
    requires
        rules_wf(rs),
        canon(q),
        a.model() == ac_fold(rs),
        h.table() == tbl_fold(rs),
        h.sub_model() == sub_fold(rs),
        (h.sub_nodes() > 0 <==> has_sub(rs)),
        m.rule_set() == tbl_fold(rs),
        m.sub_model() == sub_fold(rs),
        (m.sub_nodes() > 0 <==> has_sub(rs)),
    ensures
        a.ac_matches_spec(q) == h.hy_matches_spec(q),
        h.hy_matches_spec(q) == m.mph_matches_spec(q),
{
    lemma_folds_agree(rs, q);
    assert(h.hy_matches_spec(q) == (table_matches(tbl_fold(rs), q) || (has_sub(rs) && ac_matches(
        sub_fold(rs),
        classes(q),
    ))));
    assert(m.mph_matches_spec(q) == (table_matches(tbl_fold(rs), q) || (has_sub(rs) && ac_matches(
        sub_fold(rs),
        classes(q),
    ))));
}

} // verus!
