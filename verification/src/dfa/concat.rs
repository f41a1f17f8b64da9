use vstd::prelude::*;
use crate::dfa::Dfa;
use crate::dfa::advance::{successors, any_accepting, advance, accept_any};
use crate::dfa::or::{side_step, side_accepting, side_next, side_accept};
use crate::finite::Finite;
use crate::ordset::OrdSet;
use crate::regex::Concat;
use crate::sorted::canon;

verus! {

/// The second operand's states after one more symbol: those it had move on, and
/// it starts afresh wherever the first operand has just accepted.
pub open spec fn concat_spawn<X, A: Dfa<X>, B: Dfa<X>>(
    a: &A,
    b: &B,
    first: Option<<A::State as Finite>::Model>,
    moved: Set<<B::State as Finite>::Model>,
) -> Set<<B::State as Finite>::Model> {
    if side_accepting(a, first) {
        moved.insert(b.start())
    } else {
        moved
    }
}

impl<X: Copy, A: Dfa<X>, B: Dfa<X>> Dfa<X> for Concat<A, B> {
    /// The state of the first operand while it is alive, and the states of all
    /// the runs of the second operand that have been started so far.
    type State = (Option<A::State>, OrdSet<B::State>);

    open spec fn dfa_wf(&self) -> bool {
        self.0.dfa_wf() && self.1.dfa_wf()
    }

    open spec fn start(&self) -> (
        Option<<A::State as Finite>::Model>,
        Seq<<B::State as Finite>::Model>,
    ) {
        (
            Some(self.0.start()),
            canon::<B::State>(
                concat_spawn(&self.0, &self.1, Some(self.0.start()), Set::empty()),
            ),
        )
    }

    /// The first operand moves, every run of the second operand moves, and a
    /// new run of the second operand starts if the first operand now accepts.
    /// The transition is missing when nothing is left alive.
    open spec fn step(
        &self,
        s: (Option<<A::State as Finite>::Model>, Seq<<B::State as Finite>::Model>),
        c: X,
    ) -> Option<(Option<<A::State as Finite>::Model>, Seq<<B::State as Finite>::Model>)> {
        let first = side_step(&self.0, s.0, c);
        let second = concat_spawn(
            &self.0,
            &self.1,
            first,
            successors(&self.1, s.1.to_set(), c),
        );
        if first is Some || second != Set::<<B::State as Finite>::Model>::empty() {
            Some((first, canon::<B::State>(second)))
        } else {
            None
        }
    }

    open spec fn accepting(
        &self,
        s: (Option<<A::State as Finite>::Model>, Seq<<B::State as Finite>::Model>),
    ) -> bool {
        any_accepting(&self.1, s.1.to_set())
    }

    fn initial(&self) -> (s: Self::State) {
        let a = self.0.initial();
        let b = if self.0.accept(&a) {
            Some(self.1.initial())
        } else {
            None
        };
        let set = OrdSet::from_option(b);
        proof {
            set.lemma_canonical();
            assert(set.elems() =~= concat_spawn(
                &self.0,
                &self.1,
                Some(self.0.start()),
                Set::empty(),
            ));
        }
        (Some(a), set)
    }

    fn next(&self, state: Self::State, char: X) -> (r: Option<Self::State>) {
        let first = side_next(&self.0, state.0, char);
        let mut second = advance(&self.1, &state.1, char);
        if side_accept(&self.0, &first) {
            second.insert(self.1.initial());
        }
        proof {
            second.lemma_canonical();
        }
        if first.is_some() || !second.is_empty() {
            Some((first, second))
        } else {
            None
        }
    }

    fn accept(&self, state: &Self::State) -> (b: bool) {
        accept_any(&self.1, &state.1)
    }
}

} // verus!
