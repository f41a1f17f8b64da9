use dfa_regex::{
    And, Concat, Dfa, Dot, Empty, End, FromDfa, LookAhead, LookBehind, Not, Or, OrdSet, Plus,
    Start, ThreeFA, ToDfa,
};

type Lit = FromDfa<&'static [u8]>;

fn lit(text: &'static [u8]) -> Lit {
    FromDfa(text)
}

#[test]
fn start_allows_nothing_before_it() {
    assert_eq!(ThreeFA::<u8>::initial(&Start), ());
    assert_eq!(ThreeFA::<u8>::step_pre(&Start, (), b'a'), None);
    assert_eq!(ThreeFA::<u8>::step_active(&Start, (), b'a'), None);
    assert_eq!(ThreeFA::<u8>::step_post(&Start, (), b'a'), Some(()));
    assert_eq!(ThreeFA::<u8>::enter(&Start, ()), Some(()));
    assert_eq!(ThreeFA::<u8>::exit(&Start, ()), Some(()));
    assert!(ThreeFA::<u8>::accept(&Start, &()));
}

#[test]
fn end_allows_nothing_after_it() {
    assert_eq!(ThreeFA::<u8>::initial(&End), ());
    assert_eq!(ThreeFA::<u8>::step_pre(&End, (), b'a'), Some(()));
    assert_eq!(ThreeFA::<u8>::step_active(&End, (), b'a'), None);
    assert_eq!(ThreeFA::<u8>::step_post(&End, (), b'a'), None);
    assert_eq!(ThreeFA::<u8>::enter(&End, ()), Some(()));
    assert_eq!(ThreeFA::<u8>::exit(&End, ()), Some(()));
    assert!(ThreeFA::<u8>::accept(&End, &()));
}

#[test]
fn lifted_automaton_matches_its_language() {
    let a = lit(b"ab");
    assert_eq!(ThreeFA::initial(&a), ());
    assert_eq!(ThreeFA::step_pre(&a, (), b'x'), Some(()));
    assert_eq!(ThreeFA::step_post(&a, (), b'x'), Some(()));
    assert_eq!(ThreeFA::enter(&a, ()), Some(0));
    assert_eq!(ThreeFA::step_active(&a, 0, b'a'), Some(1));
    assert_eq!(ThreeFA::step_active(&a, 0, b'b'), None);
    assert_eq!(ThreeFA::exit(&a, 1), None);
    assert_eq!(ThreeFA::exit(&a, 2), Some(()));
    assert!(ThreeFA::accept(&a, &()));
}

#[test]
fn complement_never_runs_out() {
    let n = Not(lit(b"a"));
    assert_eq!(ThreeFA::initial(&n), Some(()));
    assert_eq!(ThreeFA::enter(&n, Some(())), Some(Some(0)));
    assert_eq!(ThreeFA::enter(&n, None), Some(None));
    assert_eq!(ThreeFA::step_active(&n, Some(0), b'b'), Some(None));
    assert_eq!(ThreeFA::step_active(&n, None, b'b'), Some(None));
    assert_eq!(ThreeFA::exit(&n, Some(0)), Some(None));
    assert_eq!(ThreeFA::exit(&n, Some(1)), Some(Some(())));
    assert!(ThreeFA::accept(&n, &None));
    assert!(!ThreeFA::accept(&n, &Some(())));
    assert_eq!(ThreeFA::step_pre(&Not(Start), Some(()), b'a'), Some(None));
    assert_eq!(ThreeFA::step_post(&Not(End), Some(()), b'a'), Some(None));
}

#[test]
fn intersection_needs_both_and_alternation_one() {
    let both = And(lit(b"a"), lit(b"b"));
    assert_eq!(ThreeFA::enter(&both, ((), ())), Some((0, 0)));
    assert_eq!(ThreeFA::step_active(&both, (0, 0), b'a'), None);
    assert_eq!(ThreeFA::exit(&both, (1, 1)), Some(((), ())));
    assert_eq!(ThreeFA::exit(&both, (1, 0)), None);
    assert_eq!(ThreeFA::step_pre(&And(Start, End), ((), ()), b'a'), None);
    assert_eq!(ThreeFA::step_post(&And(Start, End), ((), ()), b'a'), None);
    assert!(ThreeFA::<u8>::accept(&And(Start, End), &((), ())));

    let one = Or(lit(b"a"), lit(b"b"));
    assert_eq!(ThreeFA::initial(&one), (Some(()), Some(())));
    assert_eq!(
        ThreeFA::enter(&one, (Some(()), Some(()))),
        Some((Some(0), Some(0)))
    );
    assert_eq!(
        ThreeFA::step_active(&one, (Some(0), Some(0)), b'a'),
        Some((Some(1), None))
    );
    assert_eq!(ThreeFA::step_active(&one, (Some(0), Some(0)), b'x'), None);
    assert_eq!(ThreeFA::exit(&one, (Some(1), None)), Some((Some(()), None)));
    assert_eq!(ThreeFA::exit(&one, (Some(0), None)), None);
    assert_eq!(
        ThreeFA::step_pre(&Or(Start, End), (Some(()), Some(())), b'a'),
        Some((None, Some(())))
    );
    assert_eq!(
        ThreeFA::step_post(&Or(Start, End), (Some(()), Some(())), b'a'),
        Some((Some(()), None))
    );
    assert!(ThreeFA::<u8>::accept(&Or(Start, End), &(None, Some(()))));
    assert!(!ThreeFA::<u8>::accept(&Or(Start, End), &(None, None)));
}

#[test]
fn determinizer_follows_all_three_phases() {
    let d = ToDfa(lit(b"a"));
    let s0 = Dfa::<u8>::initial(&d);
    assert_eq!(s0.0, Some(()));
    assert_eq!(s0.1.items, vec![0]);
    assert!(s0.2.is_empty());
    assert!(!Dfa::<u8>::accept(&d, &s0));
    let s1 = Dfa::<u8>::next(&d, s0, b'a').unwrap();
    assert_eq!(s1.0, Some(()));
    assert_eq!(s1.1.items, vec![0, 1]);
    assert_eq!(s1.2.items, vec![()]);
    assert!(Dfa::<u8>::accept(&d, &s1));
    let s2 = Dfa::<u8>::next(&d, s1, b'x').unwrap();
    assert_eq!(s2.1.items, vec![0]);
    assert_eq!(s2.2.items, vec![()]);

    let dead = ToDfa(Concat(Start, Concat(lit(b"a"), End)));
    let t0 = Dfa::<u8>::initial(&dead);
    let t1 = Dfa::<u8>::next(&dead, t0, b'a').unwrap();
    assert!(Dfa::<u8>::accept(&dead, &t1));
    assert!(Dfa::<u8>::next(&dead, t1, b'a').is_none());
}

#[test]
fn concatenation_hands_over_where_the_first_part_ends() {
    let c = Concat(lit(b"a"), lit(b"b"));
    assert_eq!(ThreeFA::initial(&c), ((), ()));
    assert_eq!(ThreeFA::step_pre(&c, ((), ()), b'x'), Some(((), ())));
    let a0 = ThreeFA::enter(&c, ((), ())).unwrap();
    assert_eq!(a0.0, Some((0, ())));
    assert!(a0.1.is_empty());
    assert!(ThreeFA::exit(&c, a0).is_none());
    let a0 = ThreeFA::enter(&c, ((), ())).unwrap();
    let a1 = ThreeFA::step_active(&c, a0, b'a').unwrap();
    assert_eq!(a1.0, Some((1, ())));
    assert_eq!(a1.1.items, vec![((), 0)]);
    let a2 = ThreeFA::step_active(&c, a1, b'b').unwrap();
    assert_eq!(a2.0, None);
    assert_eq!(a2.1.items, vec![((), 1)]);
    let p = ThreeFA::exit(&c, a2).unwrap();
    assert_eq!(p.items, vec![((), ())]);
    assert!(ThreeFA::accept(&c, &p));
    let post2 = ThreeFA::step_post(&c, p, b'x').unwrap();
    assert_eq!(post2.items, vec![((), ())]);
    let ended = Concat(lit(b"a"), End);
    let mut post: OrdSet<((), ())> = OrdSet::new();
    post.insert(((), ()));
    assert!(ThreeFA::step_post(&ended, post, b'x').is_none());

    let empty_first = Concat(FromDfa(Empty), lit(b"b"));
    let e0 = ThreeFA::<u8>::enter(&empty_first, ((), ())).unwrap();
    assert_eq!(e0.1.items, vec![((), 0)]);
    let gone = ThreeFA::step_active(&empty_first, e0, b'x');
    assert!(gone.is_none());
}

#[test]
fn repetition_keeps_a_trace_of_what_is_complete() {
    let p = Plus(lit(b"a"));
    assert_eq!(ThreeFA::initial(&p), ());
    assert_eq!(ThreeFA::step_pre(&p, (), b'x'), Some(()));
    let a0 = ThreeFA::enter(&p, ()).unwrap();
    assert_eq!(a0.0, Some(()));
    assert_eq!(a0.1.len(), 1);
    assert!(a0.1.get(0).0.is_empty());
    assert_eq!(a0.1.get(0).1, 0);
    assert!(ThreeFA::exit(&p, a0).is_none());
    let a0 = ThreeFA::enter(&p, ()).unwrap();
    let a1 = ThreeFA::step_active(&p, a0, b'a').unwrap();
    // the repetition under way, and the trace in which it is complete and another begins
    assert_eq!(a1.1.len(), 2);
    assert!(a1.1.get(0).0.is_empty());
    assert_eq!(a1.1.get(0).1, 1);
    assert_eq!(a1.1.get(1).0.items, vec![()]);
    assert_eq!(a1.1.get(1).1, 0);
    let q = ThreeFA::exit(&p, a1).unwrap();
    assert_eq!(q.len(), 1);
    assert_eq!(q.get(0).items, vec![()]);
    assert!(ThreeFA::accept(&p, &q));
    let q2 = ThreeFA::step_post(&p, q, b'x').unwrap();
    assert_eq!(q2.len(), 1);

    let anchored = Plus(Concat(lit(b"a"), End));
    let b0 = ThreeFA::enter(&anchored, ((), ())).unwrap();
    let b1 = ThreeFA::step_active(&anchored, b0, b'a').unwrap();
    let post = ThreeFA::exit(&anchored, b1).unwrap();
    assert!(ThreeFA::accept(&anchored, &post));
    assert!(ThreeFA::step_post(&anchored, post, b'a').is_none());
}

#[test]
fn lookahead_reads_on_behind_its_position() {
    let l = LookAhead(lit(b"ab"));
    assert_eq!(ThreeFA::initial(&l), ());
    assert_eq!(ThreeFA::step_pre(&l, (), b'x'), Some(()));
    assert_eq!(ThreeFA::enter(&l, ()), Some(()));
    assert_eq!(ThreeFA::step_active(&l, (), b'a'), None);
    let post0 = ThreeFA::exit(&l, ()).unwrap();
    assert_eq!(post0.0.items, vec![0]);
    assert!(post0.1.is_empty());
    assert!(!ThreeFA::accept(&l, &post0));
    let post1 = ThreeFA::step_post(&l, post0, b'a').unwrap();
    assert_eq!(post1.0.items, vec![1]);
    assert!(post1.1.is_empty());
    let post2 = ThreeFA::step_post(&l, post1, b'b').unwrap();
    assert_eq!(post2.0.items, vec![2]);
    assert_eq!(post2.1.items, vec![()]);
    assert!(ThreeFA::accept(&l, &post2));
    let post3 = ThreeFA::step_post(&l, post2, b'x').unwrap();
    assert!(post3.0.is_empty());
    assert_eq!(post3.1.items, vec![()]);
    let post0 = ThreeFA::exit(&l, ()).unwrap();
    assert!(ThreeFA::step_post(&l, post0, b'x').is_none());
    assert!(ThreeFA::exit(&LookAhead(Concat(Start, Concat(lit(b"a"), End))), ((), ((), ()))).is_some());
}

#[test]
fn lookbehind_reads_from_the_beginning() {
    let l = LookBehind(lit(b"ab"));
    let s0 = ThreeFA::initial(&l);
    assert_eq!(s0.0.items, vec![()]);
    assert_eq!(s0.1.items, vec![0]);
    assert!(ThreeFA::exit(&l, ThreeFA::enter(&l, s0).unwrap()).is_none());
    let s0 = ThreeFA::initial(&l);
    let s1 = ThreeFA::step_pre(&l, s0, b'a').unwrap();
    assert_eq!(s1.0.items, vec![()]);
    assert_eq!(s1.1.items, vec![0, 1]);
    let s2 = ThreeFA::step_pre(&l, s1, b'b').unwrap();
    assert_eq!(s2.1.items, vec![0, 2]);
    let a = ThreeFA::enter(&l, s2).unwrap();
    assert_eq!(a.1.items, vec![0, 2]);
    assert!(ThreeFA::step_active(&l, a, b'a').is_none());
    let s0 = ThreeFA::initial(&l);
    let s1 = ThreeFA::step_pre(&l, s0, b'a').unwrap();
    let s2 = ThreeFA::step_pre(&l, s1, b'b').unwrap();
    let p = ThreeFA::exit(&l, s2).unwrap();
    assert_eq!(p.items, vec![()]);
    assert!(ThreeFA::accept(&l, &p));
    assert_eq!(ThreeFA::step_post(&l, p, b'x').unwrap().items, vec![()]);
    let anchored = LookBehind(Start);
    let t0 = ThreeFA::<u8>::initial(&anchored);
    assert!(ThreeFA::<u8>::step_pre(&anchored, t0, b'a').is_none());
    let ended = LookBehind(End);
    let mut post: OrdSet<()> = OrdSet::new();
    post.insert(());
    assert!(ThreeFA::<u8>::step_post(&ended, post, b'a').is_none());
}

#[test]
fn dfa_combinator_states_follow_the_table() {
    assert_eq!(Dfa::<u8>::initial(&Dot), false);
    assert_eq!(Dfa::<u8>::next(&Dot, false, b'a'), Some(true));
    assert_eq!(Dfa::<u8>::next(&Dot, true, b'a'), None);
    let lit: &[u8] = b"ab";
    assert_eq!(Dfa::next(&lit, 0, b'a'), Some(1));
    assert_eq!(Dfa::next(&lit, 1, b'a'), None);
    assert_eq!(Dfa::next(&lit, 2, b'a'), None);
    assert!(Dfa::<u8>::accept(&lit, &2));
    let n = Not(lit);
    assert_eq!(Dfa::next(&n, Some(0), b'x'), Some(None));
    assert_eq!(Dfa::next(&n, None, b'x'), Some(None));
    assert!(Dfa::accept(&n, &None));
    let i = dfa_regex::Iff(lit, Dot);
    assert_eq!(Dfa::next(&i, (None, None), b'x'), Some((None, None)));
    assert!(Dfa::accept(&i, &(None, None)));
    let o = Or(lit, Dot);
    assert_eq!(Dfa::next(&o, (Some(0), Some(true)), b'x'), None);
    assert_eq!(Dfa::next(&o, (Some(0), Some(true)), b'a'), Some((Some(1), None)));
    let a = And(lit, Dot);
    assert_eq!(Dfa::next(&a, (0, true), b'a'), None);
    assert_eq!(Dfa::next(&a, (0, false), b'a'), Some((1, true)));
    let c = Concat(Dot, lit);
    let c0 = Dfa::<u8>::initial(&c);
    assert_eq!(c0.0, Some(false));
    assert!(c0.1.is_empty());
    let c1 = Dfa::next(&c, c0, b'x').unwrap();
    assert_eq!(c1.0, Some(true));
    assert_eq!(c1.1.items, vec![0]);
    let c2 = Dfa::next(&c, c1, b'a').unwrap();
    assert_eq!(c2.0, None);
    assert_eq!(c2.1.items, vec![1]);
    assert!(Dfa::next(&c, c2, b'a').is_none());
    let e = Concat(Empty, lit);
    assert_eq!(Dfa::<u8>::initial(&e).1.items, vec![0]);
    let p = Plus(lit);
    let post0 = Dfa::<u8>::initial(&p);
    assert_eq!(post0.items, vec![0]);
    let post1 = Dfa::next(&p, post0, b'a').unwrap();
    let post2 = Dfa::next(&p, post1, b'b').unwrap();
    assert_eq!(post2.items, vec![0, 2]);
    assert!(Dfa::accept(&p, &post2));
    assert!(Dfa::next(&p, post2, b'b').is_none());
    let f = FromDfa(lit);
    assert_eq!(Dfa::<u8>::initial(&f), 0);
    assert_eq!(Dfa::next(&f, 0, b'a'), Some(1));
    assert!(Dfa::<u8>::accept(&f, &2));
}
