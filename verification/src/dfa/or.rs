use vstd::prelude::*;
use crate::dfa::Dfa;
use crate::finite::Finite;
use crate::regex::Or;

verus! {

/// One side of a pair of automata that run side by side: it moves while it is
/// alive and stays dead once it is dead.
pub open spec fn side_step<X, A: Dfa<X>>(a: &A, s: Option<<A::State as Finite>::Model>, c: X)
    -> Option<<A::State as Finite>::Model> {
    match s {
        Some(x) => a.step(x, c),
        None => None,
    }
}

/// Whether a side is alive and accepting.
pub open spec fn side_accepting<X, A: Dfa<X>>(
    a: &A,
    s: Option<<A::State as Finite>::Model>,
) -> bool {
    match s {
        Some(x) => a.accepting(x),
        None => false,
    }
}

/// Moves one side of a pair of automata that run side by side.
pub fn side_next<X, A: Dfa<X>>(a: &A, state: Option<A::State>, char: X) -> (r: Option<A::State>)
    requires
        a.dfa_wf(),
        state.wf(),
    ensures
        r.wf(),
        r.model() == side_step(a, state.model(), char),
{
    match state {
        Some(x) => a.next(x, char),
        None => None,
    }
}

/// Tells whether one side of a pair of automata is alive and accepting.
pub fn side_accept<X, A: Dfa<X>>(a: &A, state: &Option<A::State>) -> (b: bool)
    requires
        a.dfa_wf(),
        state.wf(),
    ensures
        b == side_accepting(a, state.model()),
{
    match state {
        Some(x) => a.accept(x),
        None => false,
    }
}

impl<X: Copy, A: Dfa<X>, B: Dfa<X>> Dfa<X> for Or<A, B> {
    type State = (Option<A::State>, Option<B::State>);

    open spec fn dfa_wf(&self) -> bool {
        self.0.dfa_wf() && self.1.dfa_wf()
    }

    open spec fn start(&self) -> (
        Option<<A::State as Finite>::Model>,
        Option<<B::State as Finite>::Model>,
    ) {
        (Some(self.0.start()), Some(self.1.start()))
    }

    /// Each side moves on its own; the transition is missing only when both sides are dead.
    open spec fn step(
        &self,
        s: (Option<<A::State as Finite>::Model>, Option<<B::State as Finite>::Model>),
        c: X,
    ) -> Option<(Option<<A::State as Finite>::Model>, Option<<B::State as Finite>::Model>)> {
        let a = side_step(&self.0, s.0, c);
        let b = side_step(&self.1, s.1, c);
        if a is Some || b is Some {
            Some((a, b))
        } else {
            None
        }
    }

    open spec fn accepting(
        &self,
        s: (Option<<A::State as Finite>::Model>, Option<<B::State as Finite>::Model>),
    ) -> bool {
        side_accepting(&self.0, s.0) || side_accepting(&self.1, s.1)
    }

    fn initial(&self) -> (s: Self::State) {
        (Some(self.0.initial()), Some(self.1.initial()))
    }

    fn next(&self, state: Self::State, char: X) -> (r: Option<Self::State>) {
        let a = side_next(&self.0, state.0, char);
        let b = side_next(&self.1, state.1, char);
        if a.is_some() || b.is_some() {
            Some((a, b))
        } else {
            None
        }
    }

    fn accept(&self, state: &Self::State) -> (b: bool) {
        side_accept(&self.0, &state.0) || side_accept(&self.1, &state.1)
    }
}

} // verus!
