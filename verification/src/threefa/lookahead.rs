use vstd::prelude::*;
use crate::finite::Finite;
use crate::ordset::OrdSet;
use crate::regex::LookAhead;
use crate::sorted::canon;
use crate::threefa::{
    ThreeFA,
    option_set,
    active_moves,
    any_post_accepting,
    step_active_into,
    step_post_into,
    exit_into,
    accept_any_post,
};
use crate::threefa::to_dfa::to_dfa_post;

verus! {

impl<X: Copy, A: ThreeFA<X>> ThreeFA<X> for LookAhead<A> {
    type Pre = A::Pre;

    /// The operand's `Pre` state at the position of the assertion.
    type Active = A::Pre;

    /// The operand's matches that are under way from the position of the
    /// assertion, and those that have ended.
    type Post = (OrdSet<A::Active>, OrdSet<A::Post>);

    open spec fn tfa_wf(&self) -> bool {
        self.0.tfa_wf()
    }

    open spec fn pre_start(&self) -> <A::Pre as Finite>::Model {
        self.0.pre_start()
    }

    open spec fn pre_step(&self, s: <A::Pre as Finite>::Model, c: X) -> Option<
        <A::Pre as Finite>::Model,
    > {
        self.0.pre_step(s, c)
    }

    /// The assertion itself matches no symbol.
    open spec fn active_step(&self, s: <A::Pre as Finite>::Model, c: X) -> Option<
        <A::Pre as Finite>::Model,
    > {
        None
    }

    /// The operand reads on behind the position of the assertion: its matches
    /// under way go on, and each ends here if it can. The step is missing
    /// when none is left.
    open spec fn post_step(
        &self,
        s: (Seq<<A::Active as Finite>::Model>, Seq<<A::Post as Finite>::Model>),
        c: X,
    ) -> Option<(Seq<<A::Active as Finite>::Model>, Seq<<A::Post as Finite>::Model>)> {
        let active = active_moves(&self.0, s.0.to_set(), c);
        let post = to_dfa_post(&self.0, active, s.1.to_set(), c);
        if active != Set::<<A::Active as Finite>::Model>::empty() || post != Set::<
            <A::Post as Finite>::Model,
        >::empty() {
            Some((canon::<A::Active>(active), canon::<A::Post>(post)))
        } else {
            None
        }
    }

    open spec fn post_accepting(
        &self,
        s: (Seq<<A::Active as Finite>::Model>, Seq<<A::Post as Finite>::Model>),
    ) -> bool {
        any_post_accepting(&self.0, s.1.to_set())
    }

    open spec fn entered(&self, s: <A::Pre as Finite>::Model) -> Option<<A::Pre as Finite>::Model> {
        Some(s)
    }

    /// At the position of the assertion the operand's match begins, and ends
    /// at once if it can.
    open spec fn exited(&self, s: <A::Pre as Finite>::Model) -> Option<
        (Seq<<A::Active as Finite>::Model>, Seq<<A::Post as Finite>::Model>),
    > {
        match self.0.entered(s) {
            Some(x) => Some((seq![x], canon::<A::Post>(option_set(self.0.exited(x))))),
            None => None,
        }
    }

    fn initial(&self) -> (s: Self::Pre) {
        self.0.initial()
    }

    fn step_pre(&self, state: Self::Pre, char: X) -> (r: Option<Self::Pre>) {
        self.0.step_pre(state, char)
    }

    fn step_active(&self, state: Self::Active, char: X) -> (r: Option<Self::Active>) {
        None
    }

    fn step_post(&self, state: Self::Post, char: X) -> (r: Option<Self::Post>) {
        let mut active: OrdSet<A::Active> = OrdSet::new();
        step_active_into(&self.0, &state.0, char, &mut active);
        let mut post: OrdSet<A::Post> = OrdSet::new();
        step_post_into(&self.0, &state.1, char, &mut post);
        exit_into(&self.0, &active, &mut post);
        proof {
            active.lemma_canonical();
            post.lemma_canonical();
            assert(active.elems() =~= active_moves(&self.0, state.0@.to_set(), char));
            assert(post.elems() =~= to_dfa_post(
                &self.0,
                active.elems(),
                state.1@.to_set(),
                char,
            ));
        }
        if !active.is_empty() || !post.is_empty() {
            Some((active, post))
        } else {
            None
        }
    }

    fn accept(&self, state: &Self::Post) -> (b: bool) {
        accept_any_post(&self.0, &state.1)
    }

    fn enter(&self, state: Self::Pre) -> (r: Option<Self::Active>) {
        Some(state)
    }

    fn exit(&self, state: Self::Active) -> (r: Option<Self::Post>) {
        match self.0.enter(state) {
            Some(x) => {
                let post = OrdSet::from_option(self.0.exit(x.duplicate()));
                proof {
                    post.lemma_canonical();
                }
                Some((OrdSet::singleton(x), post))
            },
            None => None,
        }
    }
}

} // verus!
