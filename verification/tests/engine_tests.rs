use domain_matcher::ac_automaton::ACAutomaton;
use domain_matcher::ac_automaton::HybridMatcher;
use domain_matcher::mph::MphMatcher;
use domain_matcher::DomainMatcher;
use domain_matcher::MatchType;

fn test_domain_matcher(matcher: &mut impl DomainMatcher) {
    matcher.reverse_insert("163.com", MatchType::Domain(true));
    matcher.reverse_insert("m.126.com", MatchType::Full(true));
    matcher.reverse_insert("3.com", MatchType::Full(true));
    matcher.reverse_insert("google.com", MatchType::SubStr(true));
    matcher.reverse_insert("vgoogle.com", MatchType::SubStr(true));
    matcher.build();
    assert_eq!(matcher.reverse_query("126.com"), false);
    assert_eq!(matcher.reverse_query("mm163.com"), false);
    assert_eq!(matcher.reverse_query("m.163.com"), true); // sub domain
    assert_eq!(matcher.reverse_query("163.com"), true); // sub domain
    assert_eq!(matcher.reverse_query("63.com"), false);
    assert_eq!(matcher.reverse_query("m.126.com"), true); // full match
    assert_eq!(matcher.reverse_query("oogle.com"), false);
    assert_eq!(matcher.reverse_query("vvgoogle.com"), true); // substr
    matcher.clear();
    matcher.reverse_insert("video.google.com", MatchType::Domain(true));
    matcher.reverse_insert("gle.com", MatchType::Domain(true));
    matcher.build();
    assert_eq!(matcher.reverse_query("google.com"), false);
    assert_eq!(matcher.reverse_query("video.google.com.hk"), false); // not sub domain
}

#[test]
fn test_ac_automaton() {
    let mut ac_automaton = ACAutomaton::new(1);
    test_domain_matcher(&mut ac_automaton);
}

#[test]
fn test_hybrid_matcher() {
    let mut hybrid_matcher = HybridMatcher::new(1);
    test_domain_matcher(&mut hybrid_matcher);
}

#[test]
fn test_mph_matcher() {
    let mut mph_matcher = MphMatcher::new(1);
    test_domain_matcher(&mut mph_matcher);
}

// A categorized domain list is produced by an outside collaborator; with no
// list at hand the matchers simply stay empty, and these checks only
// exercise construction and the size report.
#[test]
fn test_ac_automaton_with_geosite() {
    let ac_automaton = ACAutomaton::new(15000);
    println!(
        "Mem size of ac_automaton: {} mb, trie node count: {}",
        ac_automaton.runtime_memory_size() as f32 / (1024.0 * 1024.0),
        ac_automaton.trie_node_count()
    );
    println!("Hello, DomainMatcher!");
}

#[test]
fn test_hybrid_matcher_with_geosite() {
    let hybrid_matcher = HybridMatcher::new(1);
    let mem: usize = 0;
    println!(
        "Mem size of hybrid matcher: {} mb",
        mem as f32 / (1024.0 * 1024.0),
    );
    println!("Hello, Hybrid DomainMatcher!");
    drop(hybrid_matcher);
}

#[test]
fn test_mph_matcher_with_geosite() {
    let mph_matcher = MphMatcher::new(1);
    let mem: usize = 0;
    println!("Mem size of Mph matcher: {} mb", mem as f32 / (1024.0 * 1024.0),);
    println!("Hello, Mph DomainMatcher!");
    drop(mph_matcher);
}
