use domain_matcher::ac_automaton::ACAutomaton;
use domain_matcher::ac_automaton::HybridMatcher;
use domain_matcher::mph::MphMatcher;
use domain_matcher::DomainMatcher;
use domain_matcher::MatchType;

fn insert_fixture(m: &mut impl DomainMatcher) {
    m.reverse_insert("example.com", MatchType::Domain(true));
    m.reverse_insert("mail.test.org", MatchType::Full(true));
    m.reverse_insert("tracker", MatchType::SubStr(true));
    m.reverse_insert("ads.net", MatchType::Domain(true));
    m.reverse_insert("x.y", MatchType::Full(true));
}

fn queries() -> Vec<&'static str> {
    vec![
        "example.com",
        "www.example.com",
        "wexample.com",
        "mail.test.org",
        "x.mail.test.org",
        "atrackerb.io",
        "track",
        "ads.net",
        "sub.ads.net",
        "bads.net",
        "x.y",
        "z.x.y",
        "",
        ".",
        "a",
    ]
}

// Perfect-hash correctness: every rule in a built table is found, and a
// sample of non-members is rejected; the exact comparison admits no false
// positives.
#[test]
fn mph_lookup_members_and_non_members() {
    let mut m = MphMatcher::new(1);
    let members = vec![
        "alpha.com",
        "beta.org",
        "gamma.net",
        "delta.io",
        "epsilon.dev",
        "zeta.app",
        "eta.co",
        "theta.me",
    ];
    for r in &members {
        m.reverse_insert(r, MatchType::Full(true));
    }
    m.build();
    for r in &members {
        assert!(m.reverse_query(r));
    }
    let strangers = vec![
        "alpha.co",
        "lpha.com",
        "alpha.comm",
        "beta.net",
        "theta.m",
        "omega.com",
        "a",
        "",
        "zzzzzzzz",
        "alpha-com",
    ];
    for s in &strangers {
        assert!(!m.reverse_query(s));
    }
}

// Build determinism: two instances built from the same insertion sequence
// answer every query identically, and rebuilding after clear does too.
#[test]
fn build_deterministic() {
    let mut a = MphMatcher::new(1);
    let mut b = MphMatcher::new(4);
    insert_fixture(&mut a);
    insert_fixture(&mut b);
    a.build();
    b.build();
    for q in queries() {
        assert_eq!(a.reverse_query(q), b.reverse_query(q));
    }
    // rebuild from scratch on the same instance
    a.clear();
    insert_fixture(&mut a);
    a.build();
    for q in queries() {
        assert_eq!(a.reverse_query(q), b.reverse_query(q));
    }
}

// Round trip across engines: the three engines agree on every query for a
// fixed set of insertions.
#[test]
fn engines_agree() {
    let mut ac = ACAutomaton::new(1);
    let mut hy = HybridMatcher::new(1);
    let mut mph = MphMatcher::new(1);
    insert_fixture(&mut ac);
    insert_fixture(&mut hy);
    insert_fixture(&mut mph);
    ac.build();
    hy.build();
    mph.build();
    for q in queries() {
        let r = ac.reverse_query(q);
        assert_eq!(r, hy.reverse_query(q));
        assert_eq!(r, mph.reverse_query(q));
    }
}

// Idempotent clear: clearing and re-inserting behaves like a fresh instance.
#[test]
fn clear_idempotent() {
    let mut used = HybridMatcher::new(1);
    used.reverse_insert("junk.org", MatchType::Domain(true));
    used.reverse_insert("noise", MatchType::SubStr(true));
    used.build();
    used.clear();
    insert_fixture(&mut used);
    used.build();
    let mut fresh = HybridMatcher::new(1);
    insert_fixture(&mut fresh);
    fresh.build();
    for q in queries() {
        assert_eq!(used.reverse_query(q), fresh.reverse_query(q));
    }
    assert!(!used.reverse_query("junk.org"));
    assert!(!used.reverse_query("xnoisey"));
}

// Case folding and the class-0 fold: the automaton matches case-insensitively,
// and any byte outside the host alphabet folds to the same class as 'a'.
#[test]
fn automaton_class_folding() {
    let mut ac = ACAutomaton::new(1);
    ac.reverse_insert("GOOGLE.com", MatchType::SubStr(true));
    ac.reverse_insert("abc", MatchType::Full(true));
    ac.build();
    assert!(ac.reverse_query("www.google.COM"));
    assert!(ac.reverse_query("ABC"));
    // '#' is outside the alphabet and folds to the class of 'a'
    assert!(ac.reverse_query("#bc"));
    assert!(!ac.reverse_query("xbc"));
}

// The trie reports its size and supports shrinking without changing answers.
#[test]
fn node_count_and_shrink() {
    let mut ac = ACAutomaton::new(1);
    assert!(ac.empty());
    assert_eq!(ac.trie_node_count(), 0);
    ac.reverse_insert("ab", MatchType::Full(true));
    assert!(!ac.empty());
    // 'b' then 'a' in reverse order: two fresh nodes
    assert_eq!(ac.trie_node_count(), 2);
    ac.reverse_insert("b", MatchType::SubStr(true));
    assert_eq!(ac.trie_node_count(), 2);
    ac.build();
    ac.shrink_to_fit();
    assert!(ac.reverse_query("ab"));
    assert!(ac.reverse_query("zzzb"));
    assert!(!ac.reverse_query("a"));
    assert!(ac.runtime_memory_size() > 0);

    // a domain rule also lays down its dot-extension node
    let mut ac2 = ACAutomaton::new(1);
    ac2.reverse_insert("a", MatchType::Domain(true));
    assert_eq!(ac2.trie_node_count(), 2);
    ac2.reverse_insert("a", MatchType::Domain(true));
    assert_eq!(ac2.trie_node_count(), 2);
}

// Hidden substring rules are still found: a substring pattern that sits
// inside a longer pattern's trie path must fire.
#[test]
fn nested_substring_found() {
    let mut ac = ACAutomaton::new(1);
    ac.reverse_insert("ba", MatchType::SubStr(true));
    ac.reverse_insert("zbac", MatchType::SubStr(true));
    ac.build();
    assert!(ac.reverse_query("bac"));
    assert!(ac.reverse_query("zbac"));
    assert!(!ac.reverse_query("bc"));
}

// Empty queries and single-byte rules behave per the exact semantics.
#[test]
fn small_inputs() {
    let mut hy = HybridMatcher::new(1);
    hy.reverse_insert("a", MatchType::Full(true));
    hy.build();
    assert!(hy.reverse_query("a"));
    assert!(!hy.reverse_query(""));
    assert!(!hy.reverse_query("aa"));

    let mut mph = MphMatcher::new(1);
    mph.reverse_insert("a", MatchType::Domain(true));
    mph.build();
    assert!(mph.reverse_query("a"));
    assert!(mph.reverse_query("b.a"));
    assert!(!mph.reverse_query("ba"));
    assert!(!mph.reverse_query(""));
}

// Building with no rules at all is harmless on every engine.
#[test]
fn empty_build() {
    let mut ac = ACAutomaton::new(0);
    ac.build();
    assert!(!ac.reverse_query("anything"));
    assert!(!ac.reverse_query(""));
    let mut hy = HybridMatcher::new(0);
    hy.build();
    assert!(!hy.reverse_query("anything"));
    let mut mph = MphMatcher::new(0);
    assert!(mph.build());
    assert!(!mph.reverse_query("anything"));
}

// Duplicate insertions are deduplicated: inserting the same exact rule
// twice changes nothing about the answers.
#[test]
fn duplicate_insertions() {
    let mut mph = MphMatcher::new(1);
    mph.reverse_insert("dup.example", MatchType::Full(true));
    mph.reverse_insert("dup.example", MatchType::Full(true));
    mph.reverse_insert("host.example", MatchType::Domain(true));
    mph.reverse_insert("host.example", MatchType::Domain(true));
    mph.build();
    assert!(mph.reverse_query("dup.example"));
    assert!(mph.reverse_query("a.host.example"));
    assert!(!mph.reverse_query("up.example"));

    let mut hy = HybridMatcher::new(1);
    hy.reverse_insert("dup.example", MatchType::Full(true));
    hy.reverse_insert("dup.example", MatchType::Full(true));
    hy.build();
    assert!(hy.reverse_query("dup.example"));
    assert!(!hy.reverse_query("dup.examplee"));
}
