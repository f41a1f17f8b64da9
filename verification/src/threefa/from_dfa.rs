use vstd::prelude::*;
use crate::dfa::Dfa;
use crate::finite::Finite;
use crate::regex::FromDfa;
use crate::threefa::ThreeFA;

verus! {

impl<X, A: Dfa<X>> ThreeFA<X> for FromDfa<A> {
    type Pre = ();

    type Active = A::State;

    type Post = ();

    open spec fn tfa_wf(&self) -> bool {
        self.0.dfa_wf()
    }

    open spec fn pre_start(&self) -> () {
        ()
    }

    open spec fn pre_step(&self, s: (), c: X) -> Option<()> {
        Some(())
    }

    /// The match is read by the automaton.
    open spec fn active_step(&self, s: <A::State as Finite>::Model, c: X) -> Option<
        <A::State as Finite>::Model,
    > {
        self.0.step(s, c)
    }

    open spec fn post_step(&self, s: (), c: X) -> Option<()> {
        Some(())
    }

    open spec fn post_accepting(&self, s: ()) -> bool {
        true
    }

    /// The match begins in the automaton's start state.
    open spec fn entered(&self, s: ()) -> Option<<A::State as Finite>::Model> {
        Some(self.0.start())
    }

    /// The match can end where the automaton accepts.
    open spec fn exited(&self, s: <A::State as Finite>::Model) -> Option<()> {
        if self.0.accepting(s) {
            Some(())
        } else {
            None
        }
    }

    fn initial(&self) -> (s: Self::Pre) {
        ()
    }

    fn step_pre(&self, state: Self::Pre, char: X) -> (r: Option<Self::Pre>) {
        Some(())
    }

    fn step_active(&self, state: Self::Active, char: X) -> (r: Option<Self::Active>) {
        self.0.next(state, char)
    }

    fn step_post(&self, state: Self::Post, char: X) -> (r: Option<Self::Post>) {
        Some(())
    }

    fn accept(&self, state: &Self::Post) -> (b: bool) {
        true
    }

    fn enter(&self, state: Self::Pre) -> (r: Option<Self::Active>) {
        Some(self.0.initial())
    }

    fn exit(&self, state: Self::Active) -> (r: Option<Self::Post>) {
        if self.0.accept(&state) {
            Some(())
        } else {
            None
        }
    }
}

} // verus!
