use vstd::prelude::*;
use crate::dfa::Dfa;
use crate::finite::Finite;
use crate::regex::Not;

verus! {

impl<X, A: Dfa<X>> Dfa<X> for Not<A> {
    /// The operand's state, or `None` once the operand has rejected.
    type State = Option<A::State>;

    open spec fn dfa_wf(&self) -> bool {
        self.0.dfa_wf()
    }

    open spec fn start(&self) -> Option<<A::State as Finite>::Model> {
        Some(self.0.start())
    }

    /// Never missing: where the operand has no transition, the complement goes on in `None`.
    open spec fn step(&self, s: Option<<A::State as Finite>::Model>, c: X) -> Option<
        Option<<A::State as Finite>::Model>,
    > {
        Some(
            match s {
                Some(x) => self.0.step(x, c),
                None => None,
            },
        )
    }

    open spec fn accepting(&self, s: Option<<A::State as Finite>::Model>) -> bool {
        !match s {
            Some(x) => self.0.accepting(x),
            None => false,
        }
    }

    fn initial(&self) -> (s: Self::State) {
        Some(self.0.initial())
    }

    fn next(&self, state: Self::State, char: X) -> (r: Option<Self::State>) {
        Some(
            match state {
                Some(x) => self.0.next(x, char),
                None => None,
            },
        )
    }

    fn accept(&self, state: &Self::State) -> (b: bool) {
        !match state {
            Some(x) => self.0.accept(x),
            None => false,
        }
    }
}

} // verus!
