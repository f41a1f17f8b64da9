use dfa_regex::to_regex::{bypass_string, either_string, symbol_string};
use dfa_regex::{
    to_regex, try_to_regex, Anything, Concat, Dfa, Dot, Empty, FromDfa, LookAhead, Not, Or, Plus, Start, ToDfa,
};

// A reader for the patterns that `to_regex` writes, to check them by their language.
enum Re {
    Sym(u8),
    Cat(Vec<Re>),
    Alt(Vec<Re>),
    Star(Box<Re>),
}

fn hex(b: u8) -> u8 {
    match b {
        b'0'..=b'9' => b - b'0',
        _ => b - b'a' + 10,
    }
}

fn parse_alt(text: &[u8], pos: &mut usize) -> Re {
    let mut branches = vec![parse_seq(text, pos)];
    while *pos < text.len() && text[*pos] == b'|' {
        *pos += 1;
        branches.push(parse_seq(text, pos));
    }
    Re::Alt(branches)
}

fn parse_seq(text: &[u8], pos: &mut usize) -> Re {
    let mut parts = Vec::new();
    while *pos < text.len() && text[*pos] != b'|' && text[*pos] != b')' {
        let mut atom = if text[*pos] == b'(' {
            *pos += 1;
            let inner = parse_alt(text, pos);
            assert_eq!(text[*pos], b')');
            *pos += 1;
            inner
        } else if text[*pos] == b'\\' {
            let v = hex(text[*pos + 1]) * 16 + hex(text[*pos + 2]);
            *pos += 3;
            Re::Sym(v)
        } else {
            *pos += 1;
            Re::Sym(text[*pos - 1])
        };
        while *pos < text.len() && text[*pos] == b'*' {
            *pos += 1;
            atom = Re::Star(Box::new(atom));
        }
        parts.push(atom);
    }
    Re::Cat(parts)
}

// The positions at which a match of `re` that begins at `from` can end.
fn ends(re: &Re, word: &[u8], from: usize) -> Vec<usize> {
    match re {
        Re::Sym(c) => {
            if from < word.len() && word[from] == *c {
                vec![from + 1]
            } else {
                vec![]
            }
        }
        Re::Cat(parts) => {
            let mut at = vec![from];
            for p in parts {
                let mut next = Vec::new();
                for a in &at {
                    for e in ends(p, word, *a) {
                        if !next.contains(&e) {
                            next.push(e);
                        }
                    }
                }
                at = next;
            }
            at
        }
        Re::Alt(branches) => {
            let mut out = Vec::new();
            for b in branches {
                for e in ends(b, word, from) {
                    if !out.contains(&e) {
                        out.push(e);
                    }
                }
            }
            out
        }
        Re::Star(inner) => {
            let mut out = vec![from];
            let mut i = 0;
            while i < out.len() {
                for e in ends(inner, word, out[i]) {
                    if !out.contains(&e) {
                        out.push(e);
                    }
                }
                i += 1;
            }
            out
        }
    }
}

fn text_matches(text: &str, word: &[u8]) -> bool {
    let mut pos = 0;
    let re = parse_alt(text.as_bytes(), &mut pos);
    assert_eq!(pos, text.len());
    ends(&re, word, 0).contains(&word.len())
}

fn words_up_to(alphabet: &[u8], len: usize) -> Vec<Vec<u8>> {
    let mut all = vec![vec![]];
    let mut level = vec![vec![]];
    for _ in 0..len {
        let mut next = Vec::new();
        for w in &level {
            for c in alphabet {
                let mut v: Vec<u8> = w.clone();
                v.push(*c);
                next.push(v);
            }
        }
        all.extend(next.iter().cloned());
        level = next;
    }
    all
}

fn same_language<D: Dfa<u8> + Copy>(d: D, alphabet: &[u8], len: usize) {
    let text = to_regex(d, alphabet);
    for w in words_up_to(alphabet, len) {
        assert_eq!(
            text_matches(&text, &w),
            dfa_regex::matches::matches(d, &w),
            "pattern {:?} on {:?}",
            text,
            w
        );
    }
}

#[test]
fn symbols_are_written_plainly_or_in_hex() {
    assert_eq!(symbol_string(b'a'), "a");
    assert_eq!(symbol_string(b' '), " ");
    assert_eq!(symbol_string(b'~'), "~");
    assert_eq!(symbol_string(0x1f), "\\1f");
    assert_eq!(symbol_string(0x7f), "\\7f");
    assert_eq!(symbol_string(0x00), "\\00");
    assert_eq!(symbol_string(0xff), "\\ff");
    assert_eq!(symbol_string(0xa0), "\\a0");
    assert_eq!(symbol_string(0x0a), "\\0a");
}

#[test]
fn labels_are_joined_conservatively() {
    let a = String::from("a");
    let b = String::from("b|c");
    let l = String::from("x");
    assert_eq!(either_string(&a, &b), "a|b|c");
    assert_eq!(bypass_string(&a, None, &b), "(a)(b|c)");
    assert_eq!(bypass_string(&a, Some(&l), &b), "(a)(x)*(b|c)");
}

#[test]
fn small_automata_give_exact_patterns() {
    assert_eq!(to_regex(Empty, b"a"), "()()");
    assert_eq!(to_regex(Anything, b"ab"), "()(a|b)*()");
    let lit: &[u8] = b"a";
    assert_eq!(to_regex(lit, b"a"), "(()(a))()");
    assert_eq!(to_regex(Dot, &[0x00, 0xff]), "(()(\\00|\\ff))()");
}

#[test]
fn repeated_symbols_in_the_alphabet_repeat_in_the_label() {
    assert_eq!(to_regex(Anything, b"aa"), "()(a|a)*()");
}

#[test]
fn a_pattern_is_found_where_there_is_one() {
    assert_eq!(
        try_to_regex(Anything, b"ab"),
        Some(String::from("()(a|b)*()"))
    );
}

#[test]
fn empty_language_has_no_pattern() {
    assert_eq!(try_to_regex(Not(Anything), b"ab"), None);
    let lit: &[u8] = b"abc";
    assert_eq!(try_to_regex(lit, b"ab"), None);
}

#[test]
fn pattern_of_a_dfa_has_its_language() {
    let lit: &[u8] = b"ab";
    same_language(lit, b"ab", 4);
    same_language(Plus(lit), b"ab", 6);
    same_language(Or(Plus(lit), Dot), b"abx", 4);
    same_language(Not(lit), b"ab", 4);
    same_language(Concat(Or(FromDfa(Empty), Plus(FromDfa(b"a"))), FromDfa(b"b")), b"abx", 5);
}

#[test]
fn pattern_of_the_anchored_lookahead() {
    let y = ToDfa(Concat(
        Start,
        Concat(
            LookAhead(Concat(Or(FromDfa(Empty), Plus(FromDfa(b"a"))), FromDfa(b"b"))),
            FromDfa(b"aaa"),
        ),
    ));
    let text = to_regex(y, b"abx");
    for w in words_up_to(b"abx", 7) {
        let a_run = w.iter().take_while(|c| **c == b'a').count();
        let expected = a_run >= 3 && w.get(a_run) == Some(&b'b');
        assert_eq!(text_matches(&text, &w), expected, "{:?}", w);
    }
}

#[test]
fn empty_alphabet_keeps_the_empty_word_only() {
    assert_eq!(to_regex(Anything, b""), "()()");
    assert_eq!(try_to_regex(Dot, b""), None);
}

#[test]
fn states_go_in_ascending_order() {
    // a | b: the state after b comes first, then the start state, then the state after a
    let a: &[u8] = b"a";
    let b: &[u8] = b"b";
    assert_eq!(to_regex(Or(a, b), b"ab"), "()((b)())|(()(a))()");
}
