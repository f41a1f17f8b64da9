use dfa_regex::{
    equal, Concat, Dot, Empty, End, FromDfa, LookAhead, LookBehind, Not, Or, Plus, Start, ToDfa,
};

type Lit = FromDfa<&'static [u8]>;

fn lit(text: &'static [u8]) -> Lit {
    FromDfa(text)
}

fn star<A>(a: A) -> Or<FromDfa<Empty>, Plus<A>> {
    Or(FromDfa(Empty), Plus(a))
}

fn any_star() -> Or<FromDfa<Empty>, Plus<FromDfa<Dot>>> {
    star(FromDfa(Dot))
}

fn three_dots() -> Concat<FromDfa<Dot>, Concat<FromDfa<Dot>, FromDfa<Dot>>> {
    Concat(FromDfa(Dot), Concat(FromDfa(Dot), FromDfa(Dot)))
}

fn run<D: dfa_regex::Dfa<u8> + Copy>(d: D, word: &[u8]) -> bool {
    dfa_regex::matches::matches(d, word)
}

#[test]
fn star_then_literal_as_dfa() {
    let x = Concat(star(lit(b"a")), lit(b"b"));
    assert!(run(x, b"b"));
    assert!(run(x, b"ab"));
    assert!(run(x, b"aaab"));
    assert!(!run(x, b""));
    assert!(!run(x, b"a"));
    assert!(!run(x, b"aba"));
    assert!(!run(x, b"bbb"));
}

#[test]
fn star_then_literal_with_array_literals() {
    let x = Concat(Or(FromDfa(Empty), Plus(FromDfa(b"a"))), FromDfa(b"b"));
    assert!(run(x, b"b"));
    assert!(run(x, b"ab"));
    assert!(run(x, b"aaab"));
    assert!(!run(x, b""));
    assert!(!run(x, b"a"));
    assert!(!run(x, b"aba"));
    assert!(!run(x, b"bbb"));
}

#[test]
fn anchored_lookahead_then_literal() {
    let y = ToDfa(Concat(
        Start,
        Concat(LookAhead(Concat(star(lit(b"a")), lit(b"b"))), lit(b"aaa")),
    ));
    assert!(run(y, b"aaab"));
    assert!(run(y, b"aaaab"));
    assert!(run(y, b"aaaabab"));
    assert!(!run(y, b"b"));
    assert!(!run(y, b"aab"));
    assert!(!run(y, b"aabaaab"));
}

#[test]
fn anchored_lookahead_equals_plain_pattern() {
    let y = ToDfa(Concat(
        Start,
        Concat(LookAhead(Concat(star(lit(b"a")), lit(b"b"))), lit(b"aaa")),
    ));
    let y2 = Concat(
        lit(b"aaa"),
        Concat(star(lit(b"a")), Concat(lit(b"b"), any_star())),
    );
    assert!(!run(y2, b"b"));
    assert_eq!(equal(y, y2, b"abx"), Ok(()));
}

#[test]
fn lookahead_equals_plain_pattern() {
    let left = ToDfa(Concat(
        LookAhead(Concat(star(lit(b"a")), lit(b"b"))),
        lit(b"aaa"),
    ));
    let right = Concat(
        any_star(),
        Concat(
            lit(b"aaa"),
            Concat(star(lit(b"a")), Concat(lit(b"b"), any_star())),
        ),
    );
    assert_eq!(equal(left, right, b"abx"), Ok(()));
}

#[test]
fn lookahead_to_end_equals_plain_pattern() {
    let left = ToDfa(Concat(
        LookAhead(Concat(any_star(), Concat(lit(b"b"), End))),
        Plus(lit(b"a")),
    ));
    let right = Concat(
        any_star(),
        Concat(lit(b"a"), Concat(any_star(), lit(b"b"))),
    );
    assert_eq!(equal(left, right, b"abx"), Ok(()));
}

#[test]
fn repeated_lookaround_equals_plain_pattern() {
    let left = ToDfa(Concat(
        Plus(Concat(
            LookBehind(lit(b"ab")),
            Concat(three_dots(), LookAhead(Not(lit(b"b")))),
        )),
        End,
    ));
    let right = Concat(
        any_star(),
        Concat(
            lit(b"ab"),
            Concat(
                star(Concat(Or(lit(b"a"), lit(b"x")), lit(b"ab"))),
                three_dots(),
            ),
        ),
    );
    assert_eq!(equal(left, right, b"abx"), Ok(()));
}

#[test]
fn start_anchor_forbids_a_prefix() {
    let anchored = ToDfa(Concat(Start, lit(b"ab")));
    assert!(run(anchored, b"ab"));
    assert!(run(anchored, b"abx"));
    assert!(!run(anchored, b"xab"));
    let free = ToDfa(lit(b"ab"));
    assert!(run(free, b"xab"));
    assert!(run(free, b"xabx"));
    assert!(!run(free, b"xa"));
}

#[test]
fn end_anchor_forbids_a_suffix() {
    let anchored = ToDfa(Concat(lit(b"ab"), End));
    assert!(run(anchored, b"ab"));
    assert!(run(anchored, b"xab"));
    assert!(!run(anchored, b"abx"));
}

#[test]
fn lookbehind_checks_what_came_before() {
    let d = ToDfa(Concat(LookBehind(lit(b"a")), lit(b"b")));
    assert!(run(d, b"ab"));
    assert!(run(d, b"xab"));
    assert!(!run(d, b"xb"));
    assert!(!run(d, b"b"));
    let n = ToDfa(Concat(LookBehind(Not(lit(b"a"))), lit(b"b")));
    assert!(run(n, b"xb"));
    assert!(run(n, b"b"));
}
