use dfa_regex::{bake_dfa, equal, Concat, Dfa, Dot, FromDfa, Or, Plus, ToDfa, Empty, LookAhead, Start};

fn run<D: Dfa<u8>>(d: D, word: &[u8]) -> bool {
    dfa_regex::matches::matches(d, word)
}

#[test]
fn baked_literal_is_a_chain() {
    let lit: &[u8] = b"ab";
    let baked = bake_dfa(lit, b"ab");
    assert_eq!(baked.states().len(), 3);
    assert_eq!(baked.states()[0], (false, vec![(b'a', 1)]));
    assert_eq!(baked.states()[1], (false, vec![(b'b', 2)]));
    assert_eq!(baked.states()[2], (true, vec![]));
    assert_eq!(Dfa::<u8>::initial(&baked), 0);
    assert_eq!(Dfa::<u8>::next(&baked, 0, b'a'), Some(1));
    assert_eq!(Dfa::<u8>::next(&baked, 0, b'b'), None);
    assert_eq!(Dfa::<u8>::next(&baked, 7, b'a'), None);
    assert!(Dfa::<u8>::accept(&baked, &2));
    assert!(!Dfa::<u8>::accept(&baked, &1));
    assert!(!Dfa::<u8>::accept(&baked, &7));
    assert_eq!(Dfa::<&u8>::next(&baked, 1, &b'b'), Some(2));
    assert_eq!(Dfa::<&u8>::initial(&baked), 0);
    assert!(Dfa::<&u8>::accept(&baked, &2));
}

#[test]
fn numbers_follow_the_depth_first_traversal() {
    // a b | b
    let a: &[u8] = b"ab";
    let b: &[u8] = b"b";
    let baked = bake_dfa(Or(a, b), b"ab");
    assert_eq!(baked.states().len(), 4);
    assert_eq!(baked.states()[0], (false, vec![(b'a', 1), (b'b', 3)]));
    assert_eq!(baked.states()[1], (false, vec![(b'b', 2)]));
    assert_eq!(baked.states()[2], (true, vec![]));
    assert_eq!(baked.states()[3], (true, vec![]));
}

#[test]
fn baked_automaton_accepts_the_same_words() {
    let d = Concat(Or(FromDfa(Empty), Plus(FromDfa(b"a"))), FromDfa(b"b"));
    let baked = bake_dfa(d, b"abx");
    let words: [&[u8]; 8] = [b"", b"b", b"ab", b"aaab", b"a", b"aba", b"bbb", b"xb"];
    for w in words {
        assert_eq!(run(&baked, w), run(d, w));
    }
    assert_eq!(equal(&baked, d, b"abx"), Ok(()));
}

#[test]
fn baked_lookahead_pattern_is_equal_to_its_source() {
    let y = ToDfa(Concat(
        Start,
        Concat(
            LookAhead(Concat(Or(FromDfa(Empty), Plus(FromDfa(b"a"))), FromDfa(b"b"))),
            FromDfa(b"aaa"),
        ),
    ));
    let baked = bake_dfa(y, b"abx");
    assert_eq!(equal(&baked, y, b"abx"), Ok(()));
    assert!(run(&baked, b"aaab"));
    assert!(!run(&baked, b"aab"));
}

#[test]
fn baked_automaton_knows_only_the_alphabet() {
    let baked = bake_dfa(Dot, b"a");
    assert!(run(&baked, b"a"));
    assert!(!run(&baked, b"b"));
    assert!(run(Dot, b"b"));
}

#[test]
fn baking_with_an_empty_alphabet_keeps_the_start_only() {
    let baked = bake_dfa(Dot, b"");
    assert_eq!(*baked.states(), vec![(false, vec![])]);
    assert!(!run(&baked, b""));
    let baked = bake_dfa(Empty, b"");
    assert_eq!(*baked.states(), vec![(true, vec![])]);
    assert!(run(&baked, b""));
}

#[test]
fn repeated_symbols_are_recorded_once_each_time() {
    let baked = bake_dfa(Dot, b"aa");
    assert_eq!(baked.states()[0], (false, vec![(b'a', 1), (b'a', 1)]));
    assert_eq!(Dfa::<u8>::next(&baked, 0, b'a'), Some(1));
}

#[test]
fn loops_point_back_to_numbers_given_before() {
    let baked = bake_dfa(dfa_regex::Anything, b"ab");
    assert_eq!(*baked.states(), vec![(true, vec![(b'a', 0), (b'b', 0)])]);
}

#[test]
fn rows_are_looked_up_by_symbol() {
    let row = vec![(b'a', 1usize), (b'b', 2usize), (b'a', 3usize)];
    assert_eq!(dfa_regex::bake_dfa::find_target(&row, b'a'), Some(1));
    assert_eq!(dfa_regex::bake_dfa::find_target(&row, b'b'), Some(2));
    assert_eq!(dfa_regex::bake_dfa::find_target(&row, b'c'), None);
}

#[test]
fn depth_first_numbers_go_down_before_they_go_on() {
    // from the start, `a` leads into a chain of two states and `b` to one state:
    // the chain is numbered before the state that `b` leads to
    let first: &[u8] = b"aab";
    let second: &[u8] = b"b";
    let baked = bake_dfa(Or(first, second), b"ab");
    assert_eq!(baked.states().len(), 5);
    assert_eq!(baked.states()[0], (false, vec![(b'a', 1), (b'b', 4)]));
    assert_eq!(baked.states()[1], (false, vec![(b'a', 2)]));
    assert_eq!(baked.states()[2], (false, vec![(b'b', 3)]));
    assert_eq!(baked.states()[3], (true, vec![]));
    assert_eq!(baked.states()[4], (true, vec![]));
}
