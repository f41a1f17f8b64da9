use dfa_regex::{Anything, Dot, Empty, Not, Or};

#[test]
fn literal_accepts_itself_only() {
    let lit: &[u8] = b"ab";
    assert!(dfa_regex::matches::matches(lit, b"ab"));
    assert!(!dfa_regex::matches::matches(lit, b"a"));
    assert!(!dfa_regex::matches::matches(lit, b"abb"));
    assert!(!dfa_regex::matches::matches(lit, b""));
}

#[test]
fn array_literal_accepts_itself_only() {
    assert!(dfa_regex::matches::matches(b"ab", b"ab"));
    assert!(!dfa_regex::matches::matches(b"ab", b"ba"));
}

#[test]
fn basic_leaves() {
    assert!(dfa_regex::matches::matches(Empty, b""));
    assert!(!dfa_regex::matches::matches(Empty, b"a"));
    assert!(dfa_regex::matches::matches(Anything, b""));
    assert!(dfa_regex::matches::matches(Anything, b"abc"));
    assert!(dfa_regex::matches::matches(Dot, b"a"));
    assert!(!dfa_regex::matches::matches(Dot, b""));
    assert!(!dfa_regex::matches::matches(Dot, b"ab"));
}

#[test]
fn complement_and_alternation() {
    assert!(dfa_regex::matches::matches(Not(Dot), b""));
    assert!(!dfa_regex::matches::matches(Not(Dot), b"x"));
    assert!(dfa_regex::matches::matches(Not(Dot), b"xy"));
    assert!(dfa_regex::matches::matches(Or(Dot, Empty), b""));
    assert!(dfa_regex::matches::matches(Or(Dot, Empty), b"a"));
    assert!(!dfa_regex::matches::matches(Or(Dot, Empty), b"ab"));
}
