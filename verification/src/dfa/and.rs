use vstd::prelude::*;
use crate::dfa::Dfa;
use crate::finite::Finite;
use crate::regex::And;

verus! {

impl<X: Copy, A: Dfa<X>, B: Dfa<X>> Dfa<X> for And<A, B> {
    type State = (A::State, B::State);

    open spec fn dfa_wf(&self) -> bool {
        self.0.dfa_wf() && self.1.dfa_wf()
    }

    open spec fn start(&self) -> (<A::State as Finite>::Model, <B::State as Finite>::Model) {
        (self.0.start(), self.1.start())
    }

    /// Both operands move; the transition is missing as soon as one of theirs is.
    open spec fn step(
        &self,
        s: (<A::State as Finite>::Model, <B::State as Finite>::Model),
        c: X,
    ) -> Option<(<A::State as Finite>::Model, <B::State as Finite>::Model)> {
        match (self.0.step(s.0, c), self.1.step(s.1, c)) {
            (Some(a), Some(b)) => Some((a, b)),
            _ => None,
        }
    }

    open spec fn accepting(
        &self,
        s: (<A::State as Finite>::Model, <B::State as Finite>::Model),
    ) -> bool {
        self.0.accepting(s.0) && self.1.accepting(s.1)
    }

    fn initial(&self) -> (s: Self::State) {
        (self.0.initial(), self.1.initial())
    }

    fn next(&self, state: Self::State, char: X) -> (r: Option<Self::State>) {
        let a = self.0.next(state.0, char);
        let b = self.1.next(state.1, char);
        match (a, b) {
            (Some(a), Some(b)) => Some((a, b)),
            _ => None,
        }
    }

    fn accept(&self, state: &Self::State) -> (b: bool) {
        self.0.accept(&state.0) && self.1.accept(&state.1)
    }
}

} // verus!
