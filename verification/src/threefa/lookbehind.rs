use vstd::prelude::*;
use crate::finite::Finite;
use crate::ordset::OrdSet;
use crate::regex::LookBehind;
use crate::sorted::canon;
use crate::threefa::{
    ThreeFA,
    option_set,
    pre_moves,
    active_moves,
    post_moves,
    entries,
    exits,
    any_post_accepting,
    step_pre_into,
    step_active_into,
    step_post_into,
    enter_into,
    exit_into,
    accept_any_post,
};

verus! {

/// The operand's matches under way after one more symbol to the left of the
/// assertion: those that were under way go on, and one begins at each `Pre`
/// state that lets it.
pub open spec fn lookbehind_active<X, A: ThreeFA<X>>(
    a: &A,
    pre: Set<<A::Pre as Finite>::Model>,
    active: Set<<A::Active as Finite>::Model>,
    c: X,
) -> Set<<A::Active as Finite>::Model> {
    active_moves(a, active, c).union(entries(a, pre))
}

impl<X: Copy, A: ThreeFA<X>> ThreeFA<X> for LookBehind<A> {
    /// The operand's `Pre` states and its matches under way, from the
    /// beginning of the input.
    type Pre = (OrdSet<A::Pre>, OrdSet<A::Active>);

    type Active = (OrdSet<A::Pre>, OrdSet<A::Active>);

    /// The operand's matches that end at the position of the assertion.
    type Post = OrdSet<A::Post>;

    open spec fn tfa_wf(&self) -> bool {
        self.0.tfa_wf()
    }

    open spec fn pre_start(&self) -> (
        Seq<<A::Pre as Finite>::Model>,
        Seq<<A::Active as Finite>::Model>,
    ) {
        (
            seq![self.0.pre_start()],
            canon::<A::Active>(option_set(self.0.entered(self.0.pre_start()))),
        )
    }

    /// The operand reads the input to the left of the assertion. The step is
    /// missing when nothing is left of it.
    open spec fn pre_step(
        &self,
        s: (Seq<<A::Pre as Finite>::Model>, Seq<<A::Active as Finite>::Model>),
        c: X,
    ) -> Option<(Seq<<A::Pre as Finite>::Model>, Seq<<A::Active as Finite>::Model>)> {
        let pre = pre_moves(&self.0, s.0.to_set(), c);
        let active = lookbehind_active(&self.0, pre, s.1.to_set(), c);
        if pre != Set::<<A::Pre as Finite>::Model>::empty() || active != Set::<
            <A::Active as Finite>::Model,
        >::empty() {
            Some((canon::<A::Pre>(pre), canon::<A::Active>(active)))
        } else {
            None
        }
    }

    /// The assertion itself matches no symbol.
    open spec fn active_step(
        &self,
        s: (Seq<<A::Pre as Finite>::Model>, Seq<<A::Active as Finite>::Model>),
        c: X,
    ) -> Option<(Seq<<A::Pre as Finite>::Model>, Seq<<A::Active as Finite>::Model>)> {
        None
    }

    open spec fn post_step(&self, s: Seq<<A::Post as Finite>::Model>, c: X) -> Option<
        Seq<<A::Post as Finite>::Model>,
    > {
        let post = post_moves(&self.0, s.to_set(), c);
        if post != Set::<<A::Post as Finite>::Model>::empty() {
            Some(canon::<A::Post>(post))
        } else {
            None
        }
    }

    open spec fn post_accepting(&self, s: Seq<<A::Post as Finite>::Model>) -> bool {
        any_post_accepting(&self.0, s.to_set())
    }

    open spec fn entered(
        &self,
        s: (Seq<<A::Pre as Finite>::Model>, Seq<<A::Active as Finite>::Model>),
    ) -> Option<(Seq<<A::Pre as Finite>::Model>, Seq<<A::Active as Finite>::Model>)> {
        Some(s)
    }

    /// At the position of the assertion each of the operand's matches under
    /// way ends if it can. The exit is missing when none can.
    open spec fn exited(
        &self,
        s: (Seq<<A::Pre as Finite>::Model>, Seq<<A::Active as Finite>::Model>),
    ) -> Option<Seq<<A::Post as Finite>::Model>> {
        let post = exits(&self.0, s.1.to_set());
        if post != Set::<<A::Post as Finite>::Model>::empty() {
            Some(canon::<A::Post>(post))
        } else {
            None
        }
    }

    fn initial(&self) -> (s: Self::Pre) {
        let active = OrdSet::from_option(self.0.enter(self.0.initial()));
        proof {
            active.lemma_canonical();
        }
        (OrdSet::singleton(self.0.initial()), active)
    }

    fn step_pre(&self, state: Self::Pre, char: X) -> (r: Option<Self::Pre>) {
        let mut pre: OrdSet<A::Pre> = OrdSet::new();
        step_pre_into(&self.0, &state.0, char, &mut pre);
        let mut active: OrdSet<A::Active> = OrdSet::new();
        step_active_into(&self.0, &state.1, char, &mut active);
        enter_into(&self.0, &pre, &mut active);
        proof {
            pre.lemma_canonical();
            active.lemma_canonical();
            assert(pre.elems() =~= pre_moves(&self.0, state.0@.to_set(), char));
            assert(active.elems() =~= lookbehind_active(
                &self.0,
                pre.elems(),
                state.1@.to_set(),
                char,
            ));
        }
        if !pre.is_empty() || !active.is_empty() {
            Some((pre, active))
        } else {
            None
        }
    }

    fn step_active(&self, state: Self::Active, char: X) -> (r: Option<Self::Active>) {
        None
    }

    fn step_post(&self, state: Self::Post, char: X) -> (r: Option<Self::Post>) {
        let mut post: OrdSet<A::Post> = OrdSet::new();
        step_post_into(&self.0, &state, char, &mut post);
        proof {
            post.lemma_canonical();
            assert(post.elems() =~= post_moves(&self.0, state@.to_set(), char));
        }
        if !post.is_empty() {
            Some(post)
        } else {
            None
        }
    }

    fn accept(&self, state: &Self::Post) -> (b: bool) {
        accept_any_post(&self.0, state)
    }

    fn enter(&self, state: Self::Pre) -> (r: Option<Self::Active>) {
        Some(state)
    }

    fn exit(&self, state: Self::Active) -> (r: Option<Self::Post>) {
        let mut post: OrdSet<A::Post> = OrdSet::new();
        exit_into(&self.0, &state.1, &mut post);
        proof {
            post.lemma_canonical();
            assert(post.elems() =~= exits(&self.0, state.1@.to_set()));
        }
        if !post.is_empty() {
            Some(post)
        } else {
            None
        }
    }
}

} // verus!
