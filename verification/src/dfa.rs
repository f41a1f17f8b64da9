//! Deterministic automata and the languages they accept.
use vstd::prelude::*;
use crate::finite::Finite;

pub mod advance;
pub mod and;
pub mod anything;
pub mod concat;
pub mod dot;
pub mod empty;
pub mod from_dfa;
pub mod iff;
pub mod not;
pub mod or;
pub mod plus;
pub mod str;

verus! {

/// A deterministic automaton over the alphabet `X`.
///
/// The three specification functions say what the automaton is: a start state,
/// a partial transition function and a set of accepting states, all over the
/// models of the states. The three executable functions compute them. A missing
/// transition means that the input is rejected, whatever follows.
pub trait Dfa<X> {
    type State: Finite;

    /// What the automaton needs in order to work as specified.
    spec fn dfa_wf(&self) -> bool;

    spec fn start(&self) -> <Self::State as Finite>::Model;

    spec fn step(&self, s: <Self::State as Finite>::Model, c: X) -> Option<
        <Self::State as Finite>::Model,
    >;

    spec fn accepting(&self, s: <Self::State as Finite>::Model) -> bool;

    fn initial(&self) -> (s: Self::State)
        requires
            self.dfa_wf(),
        ensures
            s.wf(),
            s.model() == self.start(),
    ;

    fn next(&self, state: Self::State, char: X) -> (r: Option<Self::State>)
        requires
            self.dfa_wf(),
            state.wf(),
        ensures
            r.wf(),
            r.model() == self.step(state.model(), char),
    ;

    fn accept(&self, state: &Self::State) -> (b: bool)
        requires
            self.dfa_wf(),
            state.wf(),
        ensures
            b == self.accepting(state.model()),
    ;
}

impl<'a, X, T: Dfa<X> + ?Sized> Dfa<X> for &'a T {
    type State = T::State;

    open spec fn dfa_wf(&self) -> bool {
        (**self).dfa_wf()
    }

    open spec fn start(&self) -> <T::State as Finite>::Model {
        (**self).start()
    }

    open spec fn step(&self, s: <T::State as Finite>::Model, c: X) -> Option<
        <T::State as Finite>::Model,
    > {
        (**self).step(s, c)
    }

    open spec fn accepting(&self, s: <T::State as Finite>::Model) -> bool {
        (**self).accepting(s)
    }

    fn initial(&self) -> (s: Self::State) {
        (**self).initial()
    }

    fn next(&self, state: Self::State, char: X) -> (r: Option<Self::State>) {
        (**self).next(state, char)
    }

    fn accept(&self, state: &Self::State) -> (b: bool) {
        (**self).accept(state)
    }
}

/// The state reached from `s` by reading `w`, if no transition is missing on the way.
pub open spec fn run_from<X, D: Dfa<X> + ?Sized>(
    d: &D,
    s: <D::State as Finite>::Model,
    w: Seq<X>,
) -> Option<<D::State as Finite>::Model>
    decreases w.len(),
{
    if w.len() == 0 {
        Some(s)
    } else {
        match run_from(d, s, w.drop_last()) {
            Some(t) => d.step(t, w.last()),
            None => None,
        }
    }
}

/// The state reached from the start state by reading `w`.
pub open spec fn run<X, D: Dfa<X> + ?Sized>(d: &D, w: Seq<X>) -> Option<
    <D::State as Finite>::Model,
> {
    run_from(d, d.start(), w)
}

/// Membership of `w` in the language of `d`: reading `w` from the start state
/// meets no missing transition and ends in an accepting state.
pub open spec fn accepts<X, D: Dfa<X> + ?Sized>(d: &D, w: Seq<X>) -> bool {
    match run(d, w) {
        Some(s) => d.accepting(s),
        None => false,
    }
}

/// Every symbol of `w` belongs to `alphabet`.
pub open spec fn over<X>(w: Seq<X>, alphabet: Seq<X>) -> bool {
    forall|i: int| 0 <= i < w.len() ==> alphabet.contains(#[trigger] w[i])
}

/// Whether some word over `alphabet` leads from the start state to `s`.
pub open spec fn reachable<X, D: Dfa<X> + ?Sized>(
    d: &D,
    alphabet: Seq<X>,
    s: <D::State as Finite>::Model,
) -> bool {
    exists|w: Seq<X>| over(w, alphabet) && run(d, w) == Some(s)
}

/// Whether `set` holds, with each of its states, the states that the symbols
/// of `alphabet` lead to from it.
pub open spec fn closed<X, D: Dfa<X> + ?Sized>(
    d: &D,
    alphabet: Seq<X>,
    set: Set<<D::State as Finite>::Model>,
) -> bool {
    forall|s: <D::State as Finite>::Model, c: X|
        set.contains(s) && alphabet.contains(c) && (#[trigger] d.step(s, c)) is Some
            ==> set.contains(d.step(s, c).unwrap())
}

/// The empty word leads to the start state.
pub proof fn lemma_start_reachable<X, D: Dfa<X> + ?Sized>(d: &D, alphabet: Seq<X>)
    ensures
        reachable(d, alphabet, d.start()),
{
    assert(over(Seq::<X>::empty(), alphabet));
    assert(run(d, Seq::<X>::empty()) == Some(d.start()));
}

/// A symbol of the alphabet leads from a state that can be reached to one that can be reached.
pub proof fn lemma_successor_reachable<X, D: Dfa<X> + ?Sized>(
    d: &D,
    alphabet: Seq<X>,
    s: <D::State as Finite>::Model,
    c: X,
)
    requires
        reachable(d, alphabet, s),
        alphabet.contains(c),
        d.step(s, c) is Some,
    ensures
        reachable(d, alphabet, d.step(s, c).unwrap()),
{
    let w = choose|w: Seq<X>| over(w, alphabet) && run(d, w) == Some(s);
    assert(w.push(c).drop_last() =~= w);
    assert(over(w.push(c), alphabet));
    assert(run(d, w.push(c)) == d.step(s, c));
}

/// A closed set that holds the start state holds every state that a word over
/// the alphabet leads to.
pub proof fn lemma_closed_holds_run<X, D: Dfa<X> + ?Sized>(
    d: &D,
    alphabet: Seq<X>,
    set: Set<<D::State as Finite>::Model>,
    w: Seq<X>,
)
    requires
        set.contains(d.start()),
        closed(d, alphabet, set),
        over(w, alphabet),
        run(d, w) is Some,
    ensures
        set.contains(run(d, w).unwrap()),
    decreases w.len(),
{
    if w.len() > 0 {
        assert(over(w.drop_last(), alphabet)) by {
            assert forall|i: int| 0 <= i < w.drop_last().len() implies alphabet.contains(
                #[trigger] w.drop_last()[i],
            ) by {
                assert(w.drop_last()[i] == w[i]);
            }
        }
        lemma_closed_holds_run(d, alphabet, set, w.drop_last());
        assert(alphabet.contains(w[w.len() - 1]));
    }
}

/// Reading one symbol is taking one step.
pub proof fn lemma_run_single<X, D: Dfa<X> + ?Sized>(
    d: &D,
    s: <D::State as Finite>::Model,
    a: Seq<X>,
)
    requires
        a.len() == 1,
    ensures
        run_from(d, s, a) == d.step(s, a[0]),
{
    assert(a.drop_last().len() == 0);
    assert(run_from(d, s, a.drop_last()) == Some(s));
}

/// Reading `u` and then `v` is reading `u + v`.
pub proof fn lemma_run_concat<X, D: Dfa<X> + ?Sized>(
    d: &D,
    s: <D::State as Finite>::Model,
    u: Seq<X>,
    v: Seq<X>,
)
    ensures
        run_from(d, s, u + v) == match run_from(d, s, u) {
            Some(t) => run_from(d, t, v),
            None => None,
        },
    decreases v.len(),
{
    if v.len() == 0 {
        assert(u + v =~= u);
    } else {
        lemma_run_concat(d, s, u, v.drop_last());
        assert((u + v).drop_last() =~= u + v.drop_last());
        assert((u + v).last() == v.last());
    }
}

/// A run that has met a missing transition stays dead.
pub proof fn lemma_run_dead<X, D: Dfa<X> + ?Sized>(d: &D, u: Seq<X>, v: Seq<X>)
    requires
        run(d, u) is None,
    ensures
        run(d, u + v) is None,
        !accepts(d, u + v),
{
    lemma_run_concat(d, d.start(), u, v);
}

/// A missing transition is final: if a state has no transition on `c`, then
/// no word that begins with `c` leads anywhere from it.
pub proof fn lemma_dead_state_absorbs<X, D: Dfa<X> + ?Sized>(
    d: &D,
    s: <D::State as Finite>::Model,
    c: X,
    rest: Seq<X>,
)
    requires
        d.step(s, c) is None,
    ensures
        run_from(d, s, seq![c] + rest) is None,
{
    lemma_run_single(d, s, seq![c]);
    lemma_run_concat(d, s, seq![c], rest);
}

/// If reading `u` leads to a state that has no transition on `c`, then no
/// word that begins with `u` and `c` is accepted.
pub proof fn lemma_dead_run_rejects<X, D: Dfa<X> + ?Sized>(d: &D, u: Seq<X>, c: X, rest: Seq<X>)
    requires
        run(d, u) is Some,
        d.step(run(d, u).unwrap(), c) is None,
    ensures
        !accepts(d, u.push(c) + rest),
{
    assert(u.push(c).drop_last() =~= u);
    lemma_run_dead(d, u.push(c), rest);
}

} // verus!
