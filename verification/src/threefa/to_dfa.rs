//! Running a three-phase automaton as a deterministic one.
//!
//! The deterministic automaton follows at once the `Pre` state, every match
//! that may have begun and every match that may have ended.
use vstd::prelude::*;
use crate::dfa::Dfa;
use crate::finite::Finite;
use crate::ordset::OrdSet;
use crate::regex::ToDfa;
use crate::sorted::canon;
use crate::threefa::{
    ThreeFA,
    option_set,
    opt_pre_step,
    opt_entered,
    opt_exited,
    active_moves,
    post_moves,
    exits,
    any_post_accepting,
    opt_step_pre,
    insert_option,
    step_active_into,
    step_post_into,
    exit_into,
    accept_any_post,
};

verus! {

/// The matches that may be under way after one more symbol: those that were
/// under way go on, and one begins at the new `Pre` state if it can.
pub open spec fn to_dfa_active<X, A: ThreeFA<X>>(
    a: &A,
    pre: Option<<A::Pre as Finite>::Model>,
    active: Set<<A::Active as Finite>::Model>,
    c: X,
) -> Set<<A::Active as Finite>::Model> {
    active_moves(a, active, c).union(option_set(opt_entered(a, pre)))
}

/// The matches that may have ended after one more symbol: those that had
/// ended go on, and each match under way ends here if it can.
pub open spec fn to_dfa_post<X, A: ThreeFA<X>>(
    a: &A,
    active: Set<<A::Active as Finite>::Model>,
    post: Set<<A::Post as Finite>::Model>,
    c: X,
) -> Set<<A::Post as Finite>::Model> {
    post_moves(a, post, c).union(exits(a, active))
}

impl<X: Copy, A: ThreeFA<X>> Dfa<X> for ToDfa<A> {
    type State = (Option<A::Pre>, OrdSet<A::Active>, OrdSet<A::Post>);

    open spec fn dfa_wf(&self) -> bool {
        self.0.tfa_wf()
    }

    open spec fn start(&self) -> (
        Option<<A::Pre as Finite>::Model>,
        Seq<<A::Active as Finite>::Model>,
        Seq<<A::Post as Finite>::Model>,
    ) {
        let active = self.0.entered(self.0.pre_start());
        (
            Some(self.0.pre_start()),
            canon::<A::Active>(option_set(active)),
            canon::<A::Post>(option_set(opt_exited(&self.0, active))),
        )
    }

    /// The transition is missing when nothing is left in any phase.
    open spec fn step(
        &self,
        s: (
            Option<<A::Pre as Finite>::Model>,
            Seq<<A::Active as Finite>::Model>,
            Seq<<A::Post as Finite>::Model>,
        ),
        c: X,
    ) -> Option<
        (
            Option<<A::Pre as Finite>::Model>,
            Seq<<A::Active as Finite>::Model>,
            Seq<<A::Post as Finite>::Model>,
        ),
    > {
        let pre = opt_pre_step(&self.0, s.0, c);
        let active = to_dfa_active(&self.0, pre, s.1.to_set(), c);
        let post = to_dfa_post(&self.0, active, s.2.to_set(), c);
        if pre is Some || active != Set::<<A::Active as Finite>::Model>::empty() || post
            != Set::<<A::Post as Finite>::Model>::empty() {
            Some((pre, canon::<A::Active>(active), canon::<A::Post>(post)))
        } else {
            None
        }
    }

    /// Accepting when some match that has ended is accepted.
    open spec fn accepting(
        &self,
        s: (
            Option<<A::Pre as Finite>::Model>,
            Seq<<A::Active as Finite>::Model>,
            Seq<<A::Post as Finite>::Model>,
        ),
    ) -> bool {
        any_post_accepting(&self.0, s.2.to_set())
    }

    fn initial(&self) -> (s: Self::State) {
        let i = self.0.initial();
        let entered = self.0.enter(i.duplicate());
        let exited = match &entered {
            Some(x) => self.0.exit(x.duplicate()),
            None => None,
        };
        let active = OrdSet::from_option(entered);
        let post = OrdSet::from_option(exited);
        proof {
            active.lemma_canonical();
            post.lemma_canonical();
        }
        (Some(i), active, post)
    }

    fn next(&self, state: Self::State, char: X) -> (r: Option<Self::State>) {
        let pre = opt_step_pre(&self.0, state.0, char);
        let mut active: OrdSet<A::Active> = OrdSet::new();
        step_active_into(&self.0, &state.1, char, &mut active);
        let entered = match &pre {
            Some(p) => self.0.enter(p.duplicate()),
            None => None,
        };
        insert_option(&mut active, entered);
        let mut post: OrdSet<A::Post> = OrdSet::new();
        step_post_into(&self.0, &state.2, char, &mut post);
        exit_into(&self.0, &active, &mut post);
        proof {
            active.lemma_canonical();
            post.lemma_canonical();
            assert(active.elems() =~= to_dfa_active(&self.0, pre.model(), state.1@.to_set(), char));
            assert(post.elems() =~= to_dfa_post(
                &self.0,
                active.elems(),
                state.2@.to_set(),
                char,
            ));
        }
        if pre.is_some() || !active.is_empty() || !post.is_empty() {
            Some((pre, active, post))
        } else {
            None
        }
    }

    fn accept(&self, state: &Self::State) -> (b: bool) {
        accept_any_post(&self.0, &state.2)
    }
}

} // verus!
