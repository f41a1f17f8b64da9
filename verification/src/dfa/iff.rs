use vstd::prelude::*;
use crate::dfa::Dfa;
use crate::dfa::or::{side_step, side_accepting, side_next, side_accept};
use crate::finite::Finite;
use crate::regex::Iff;

verus! {

impl<X: Copy, A: Dfa<X>, B: Dfa<X>> Dfa<X> for Iff<A, B> {
    type State = (Option<A::State>, Option<B::State>);

    open spec fn dfa_wf(&self) -> bool {
        self.0.dfa_wf() && self.1.dfa_wf()
    }

    open spec fn start(&self) -> (
        Option<<A::State as Finite>::Model>,
        Option<<B::State as Finite>::Model>,
    ) {
        (Some(self.0.start()), Some(self.1.start()))
    }

    /// Each side moves on its own, and the transition is never missing: two
    /// dead sides agree on rejecting.
    open spec fn step(
        &self,
        s: (Option<<A::State as Finite>::Model>, Option<<B::State as Finite>::Model>),
        c: X,
    ) -> Option<(Option<<A::State as Finite>::Model>, Option<<B::State as Finite>::Model>)> {
        Some((side_step(&self.0, s.0, c), side_step(&self.1, s.1, c)))
    }

    open spec fn accepting(
        &self,
        s: (Option<<A::State as Finite>::Model>, Option<<B::State as Finite>::Model>),
    ) -> bool {
        side_accepting(&self.0, s.0) == side_accepting(&self.1, s.1)
    }

    fn initial(&self) -> (s: Self::State) {
        (Some(self.0.initial()), Some(self.1.initial()))
    }

    fn next(&self, state: Self::State, char: X) -> (r: Option<Self::State>) {
        Some((side_next(&self.0, state.0, char), side_next(&self.1, state.1, char)))
    }

    fn accept(&self, state: &Self::State) -> (b: bool) {
        side_accept(&self.0, &state.0) == side_accept(&self.1, &state.1)
    }
}

} // verus!
