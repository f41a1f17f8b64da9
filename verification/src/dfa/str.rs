//! A sequence of symbols is the automaton that accepts exactly that sequence.
use vstd::prelude::*;
use vstd::laws_eq::obeys_concrete_eq;
use crate::dfa::Dfa;

verus! {

/// Transition of a literal: from position `s`, the symbol at that position
/// leads to the next position, and every other symbol is rejected.
pub open spec fn literal_step<C>(text: Seq<C>, s: usize, c: C) -> Option<usize> {
    if s < text.len() && text[s as int] == c {
        Some((s + 1) as usize)
    } else {
        None
    }
}

impl<C: PartialEq> Dfa<C> for [C] {
    /// The number of symbols matched so far.
    type State = usize;

    /// `==` on symbols must decide equality.
    open spec fn dfa_wf(&self) -> bool {
        obeys_concrete_eq::<C>()
    }

    open spec fn start(&self) -> usize {
        0
    }

    open spec fn step(&self, s: usize, c: C) -> Option<usize> {
        literal_step(self@, s, c)
    }

    open spec fn accepting(&self, s: usize) -> bool {
        s == self@.len()
    }

    fn initial(&self) -> (s: Self::State) {
        0
    }

    fn next(&self, state: Self::State, char: C) -> (r: Option<Self::State>) {
        proof {
            reveal(obeys_concrete_eq);
        }
        if state < self.len() && self[state] == char {
            Some(state + 1)
        } else {
            None
        }
    }

    fn accept(&self, state: &Self::State) -> (b: bool) {
        *state == self.len()
    }
}

impl<C: PartialEq, const N: usize> Dfa<C> for [C; N] {
    /// The number of symbols matched so far.
    type State = usize;

    /// `==` on symbols must decide equality.
    open spec fn dfa_wf(&self) -> bool {
        obeys_concrete_eq::<C>()
    }

    open spec fn start(&self) -> usize {
        0
    }

    open spec fn step(&self, s: usize, c: C) -> Option<usize> {
        literal_step(self@, s, c)
    }

    open spec fn accepting(&self, s: usize) -> bool {
        s == self@.len()
    }

    fn initial(&self) -> (s: Self::State) {
        0
    }

    fn next(&self, state: Self::State, char: C) -> (r: Option<Self::State>) {
        proof {
            reveal(obeys_concrete_eq);
        }
        if state < N && self[state] == char {
            Some(state + 1)
        } else {
            None
        }
    }

    fn accept(&self, state: &Self::State) -> (b: bool) {
        *state == N
    }
}

} // verus!
