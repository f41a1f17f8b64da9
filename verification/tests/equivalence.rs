use dfa_regex::{equal, is_empty, And, Anything, Concat, Dot, Empty, FromDfa, Iff, Not, Or, Plus};

fn run<D: dfa_regex::Dfa<u8>>(d: D, word: &[u8]) -> bool {
    dfa_regex::matches::matches(d, word)
}

#[test]
fn nothing_accepted_is_empty() {
    assert_eq!(is_empty(Not(Anything), b"ab"), Ok(()));
    assert_eq!(is_empty(And(Dot, Empty), b"ab"), Ok(()));
}

#[test]
fn empty_word_is_the_shortest_witness() {
    assert_eq!(is_empty(Anything, b"ab"), Err(vec![]));
    assert_eq!(is_empty(Empty, b"ab"), Err(vec![]));
}

#[test]
fn witness_is_a_shortest_accepted_word() {
    let lit: &[u8] = b"abba";
    assert_eq!(is_empty(lit, b"ab"), Err(b"abba".to_vec()));
    let longer = Concat(Dot, Concat(Dot, Dot));
    let w = is_empty(longer, b"ab").unwrap_err();
    assert_eq!(w.len(), 3);
    assert!(run(longer, &w));
}

#[test]
fn words_outside_the_alphabet_do_not_count() {
    let lit: &[u8] = b"abc";
    assert_eq!(is_empty(lit, b"ab"), Ok(()));
    assert_eq!(is_empty(lit, b"cba"), Err(b"abc".to_vec()));
}

#[test]
fn equal_automata_are_equal() {
    let a: &[u8] = b"ab";
    assert_eq!(equal(a, Concat(&b"a"[..], &b"b"[..]), b"abx"), Ok(()));
    assert_eq!(equal(Not(Not(Dot)), Dot, b"ab"), Ok(()));
    assert_eq!(equal(Or(Dot, Empty), Or(Empty, Dot), b"ab"), Ok(()));
    assert_eq!(equal(Plus(Dot), Not(Empty), b"ab"), Ok(()));
    assert_eq!(equal(Iff(Dot, Dot), Anything, b"ab"), Ok(()));
}

#[test]
fn unequal_automata_come_with_a_shortest_difference() {
    let w = equal(Dot, Empty, b"ab").unwrap_err();
    assert_eq!(w, vec![]);
    let a: &[u8] = b"ab";
    let b: &[u8] = b"abb";
    let w = equal(Or(a, Dot), Or(b, Dot), b"ab").unwrap_err();
    assert_eq!(w, b"ab".to_vec());
    let w = equal(Anything, Plus(Or(Dot, Empty)), b"ab");
    assert_eq!(w, Ok(()));
    let w = equal(FromDfa(&b"a"[..]), FromDfa(&b"b"[..]), b"ab").unwrap_err();
    assert_eq!(w.len(), 1);
    assert!(run(&b"a"[..], &w) != run(&b"b"[..], &w));
}

#[test]
fn language_algebra_on_sample_words() {
    let a: &[u8] = b"ab";
    let b = Concat(Dot, Dot);
    let words: [&[u8]; 6] = [b"", b"a", b"ab", b"ba", b"abab", b"abb"];
    for w in words {
        let in_a = run(a, w);
        let in_b = run(b, w);
        assert_eq!(run(Not(a), w), !in_a);
        assert_eq!(run(Or(a, b), w), in_a || in_b);
        assert_eq!(run(And(a, b), w), in_a && in_b);
        assert_eq!(run(Iff(a, b), w), in_a == in_b);
    }
    assert!(run(Concat(a, b), b"abxy"));
    assert!(!run(Concat(a, b), b"abx"));
    assert!(!run(Concat(a, b), b"baxy"));
    assert!(run(Plus(a), b"ab"));
    assert!(run(Plus(a), b"ababab"));
    assert!(!run(Plus(a), b""));
    assert!(!run(Plus(a), b"aba"));
    assert!(run(Plus(Empty), b""));
    assert!(!run(Plus(Empty), b"a"));
}

#[test]
fn dead_transition_is_final() {
    let lit: &[u8] = b"ab";
    assert!(!run(lit, b"x"));
    assert!(!run(lit, b"xab"));
    assert!(!run(lit, b"aab"));
    assert!(!run(Or(lit, Empty), b"xab"));
}

#[test]
fn empty_alphabet_leaves_the_empty_word() {
    assert_eq!(is_empty(Dot, b""), Ok(()));
    assert_eq!(is_empty(Empty, b""), Err(vec![]));
    assert_eq!(equal(Dot, Not(Anything), b""), Ok(()));
    assert_eq!(equal(Anything, Empty, b""), Ok(()));
    assert_eq!(equal(Anything, Empty, b"a"), Err(vec![b'a']));
}

#[test]
fn witness_follows_the_order_of_the_states() {
    let a: &[u8] = b"a";
    let b: &[u8] = b"b";
    assert_eq!(is_empty(Or(a, b), b"ab"), Err(vec![b'b']));
    assert_eq!(is_empty(Or(a, b), b"ba"), Err(vec![b'b']));
    assert_eq!(equal(a, b, b"ab"), Err(vec![b'b']));
}

#[test]
fn words_are_copied_and_extended() {
    let w = vec![b'a', b'b'];
    assert_eq!(dfa_regex::equal::copy_word(&w), vec![b'a', b'b']);
    assert_eq!(dfa_regex::equal::extend_word(&w, b'c'), vec![b'a', b'b', b'c']);
    assert_eq!(dfa_regex::equal::extend_word(&Vec::<u8>::new(), b'c'), vec![b'c']);
}
