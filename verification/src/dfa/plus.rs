use vstd::prelude::*;
use crate::dfa::Dfa;
use crate::dfa::advance::{successors, any_accepting, advance, accept_any};
use crate::finite::Finite;
use crate::ordset::OrdSet;
use crate::regex::Plus;
use crate::sorted::canon;

verus! {

/// The operand's states after one more symbol: those it had move on, and the
/// operand starts another repetition if one of them is accepting.
pub open spec fn plus_restart<X, A: Dfa<X>>(
    a: &A,
    moved: Set<<A::State as Finite>::Model>,
) -> Set<<A::State as Finite>::Model> {
    if any_accepting(a, moved) {
        moved.insert(a.start())
    } else {
        moved
    }
}

impl<X: Copy, A: Dfa<X>> Dfa<X> for Plus<A> {
    /// The states of all the repetitions that may be under way.
    type State = OrdSet<A::State>;

    open spec fn dfa_wf(&self) -> bool {
        self.0.dfa_wf()
    }

    open spec fn start(&self) -> Seq<<A::State as Finite>::Model> {
        seq![self.0.start()]
    }

    /// Every repetition under way moves; where one has just been completed,
    /// another one starts. The transition is missing when no state is left.
    open spec fn step(&self, s: Seq<<A::State as Finite>::Model>, c: X) -> Option<
        Seq<<A::State as Finite>::Model>,
    > {
        let states = plus_restart(&self.0, successors(&self.0, s.to_set(), c));
        if states != Set::<<A::State as Finite>::Model>::empty() {
            Some(canon::<A::State>(states))
        } else {
            None
        }
    }

    open spec fn accepting(&self, s: Seq<<A::State as Finite>::Model>) -> bool {
        any_accepting(&self.0, s.to_set())
    }

    fn initial(&self) -> (s: Self::State) {
        OrdSet::singleton(self.0.initial())
    }

    fn next(&self, state: Self::State, char: X) -> (r: Option<Self::State>) {
        let mut states = advance(&self.0, &state, char);
        if accept_any(&self.0, &states) {
            states.insert(self.0.initial());
        }
        proof {
            states.lemma_canonical();
        }
        if !states.is_empty() {
            Some(states)
        } else {
            None
        }
    }

    fn accept(&self, state: &Self::State) -> (b: bool) {
        accept_any(&self.0, state)
    }
}

} // verus!
