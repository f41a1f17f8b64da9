use vstd::prelude::*;
use crate::dfa::Dfa;
use crate::finite::Finite;
use crate::regex::FromDfa;

verus! {

impl<X, A: Dfa<X>> Dfa<X> for FromDfa<A> {
    type State = A::State;

    open spec fn dfa_wf(&self) -> bool {
        self.0.dfa_wf()
    }

    open spec fn start(&self) -> <A::State as Finite>::Model {
        self.0.start()
    }

    open spec fn step(&self, s: <A::State as Finite>::Model, c: X) -> Option<
        <A::State as Finite>::Model,
    > {
        self.0.step(s, c)
    }

    open spec fn accepting(&self, s: <A::State as Finite>::Model) -> bool {
        self.0.accepting(s)
    }

    fn initial(&self) -> (s: Self::State) {
        self.0.initial()
    }

    fn accept(&self, state: &Self::State) -> (b: bool) {
        self.0.accept(state)
    }

    fn next(&self, state: Self::State, char: X) -> (r: Option<Self::State>) {
        self.0.next(state, char)
    }
}

} // verus!
