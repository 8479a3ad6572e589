//! Domain-name rule matching with three interchangeable engines: a suffix
//! automaton over reversed domain strings, a hybrid of that automaton with a
//! rolling-hash table for exact and domain rules, and a variant that replaces
//! the hash table with a two-level minimal perfect hash table.
//!
//! A caller inserts `(pattern, MatchType)` rules, calls `build` once, and then
//! issues read-only queries; `clear` resets an engine for reuse.

use vstd::prelude::*;

pub mod ac_automaton;
pub mod alphabet;
pub mod laws;
pub mod matching;
pub mod mem_hash;
pub mod mph;
pub mod murmur3;
pub mod rolling;
pub mod trie_theory;

verus! {

use vstd::string::StringSliceAdditionalSpecFns;

/// The kind of rule a pattern is inserted under. The payload says whether the
/// rule is enabled; a disabled `Full(false)` doubles as the "no rule here"
/// annotation inside the engines.
#[derive(Copy, Clone)]
pub enum MatchType {
    /// The pattern matches itself and any subdomain of itself.
    Domain(bool),
    /// The pattern matches any string containing it.
    SubStr(bool),
    /// The pattern matches exactly itself.
    Full(bool),
}

/// Whether a rule annotation stands for a real rule.
pub open spec fn enabled(t: MatchType) -> bool {
    match t {
        MatchType::Domain(b) => b,
        MatchType::SubStr(b) => b,
        MatchType::Full(b) => b,
    }
}

impl From<bool> for MatchType {
    fn from(v: bool) -> Self {
        MatchType::Full(v)
    }
}

impl vstd::std_specs::convert::FromSpecImpl<bool> for MatchType {
    open spec fn obeys_from_spec() -> bool {
        true
    }

    open spec fn from_spec(v: bool) -> Self {
        MatchType::Full(v)
    }
}

/// The capability contract shared by the three engines.
///
/// Lifecycle: a fresh engine takes insertions, is built exactly once, then
/// answers queries; `clear` returns it to the fresh state. Each implementation
/// pins the meaning of the methods down through its own definitions of the
/// spec functions below.
pub trait DomainMatcher: Sized {
    /// Internal well-formedness of the engine's state.
    spec fn inv(&self) -> bool;

    /// Whether `build` has been run on the current rule set.
    spec fn built(&self) -> bool;

    /// Whether some inserted rule matches the query bytes `q`, each rule under
    /// its kind's semantics.
    spec fn matches_spec(&self, q: Seq<u8>) -> bool;

    /// Exact relation between the engine's state before and after inserting
    /// the pattern bytes `p` under kind `t`.
    spec fn inserted(pre: Self, post: Self, p: Seq<u8>, t: MatchType) -> bool;

    /// A state holding no rules at all, as right after `new` or `clear`.
    spec fn fresh(&self) -> bool;

    /// Whether `build` will succeed from this state: a function of the
    /// engine's rule content alone.
    spec fn build_accepts(&self) -> bool;

    /// Relation: `build` froze the state without changing the rule content.
    spec fn same_rules(pre: Self, post: Self) -> bool;

    /// Record one pattern under the given kind. Patterns are read as bytes;
    /// bytes outside the 53-symbol host alphabet fold to class 0.
    fn reverse_insert(&mut self, input_string: &str, match_type: MatchType)
        requires
            old(self).inv(),
            !old(self).built(),
            enabled(match_type),
        ensures
            final(self).inv(),
            !final(self).built(),
            Self::inserted(*old(self), *final(self), input_string.spec_bytes(), match_type),
    ;

    /// Decide whether any inserted rule matches the query.
    fn reverse_query(&self, query_string: &str) -> (r: bool)
        requires
            self.inv(),
            self.built(),
        ensures
            r == self.matches_spec(query_string.spec_bytes()),
    ;

    /// Freeze the inserted rules into queryable form. Success is pinned
    /// down: it depends on the rule content alone, and it fails only when
    /// the perfect-hash construction gives up (its seed search carries an
    /// attempt ceiling); the rule content is kept either way.
    fn build(&mut self) -> (ok: bool)
        requires
            old(self).inv(),
            !old(self).built(),
        ensures
            final(self).inv(),
            Self::same_rules(*old(self), *final(self)),
            ok == final(self).built(),
            ok == old(self).build_accepts(),
    ;

    /// Discard all rules and return to the fresh state.
    fn clear(&mut self)
        requires
            old(self).inv(),
        ensures
            final(self).inv(),
            !final(self).built(),
            final(self).fresh(),
    ;
}

} // verus!
