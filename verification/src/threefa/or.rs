use vstd::prelude::*;
use crate::finite::Finite;
use crate::regex::Or;
use crate::threefa::{
    ThreeFA,
    opt_pre_step,
    opt_active_step,
    opt_post_step,
    opt_entered,
    opt_exited,
    opt_post_accepting,
    opt_step_pre,
    opt_step_active,
    opt_step_post,
    opt_enter,
    opt_exit,
    opt_accept,
};

verus! {

/// The two sides, unless both are gone.
pub open spec fn either_side<S, T>(a: Option<S>, b: Option<T>) -> Option<(Option<S>, Option<T>)> {
    if a is Some || b is Some {
        Some((a, b))
    } else {
        None
    }
}

/// Keeps the two sides, unless both are gone.
pub fn keep_either<S: Finite, T: Finite>(a: Option<S>, b: Option<T>) -> (r: Option<
    (Option<S>, Option<T>),
>)
    requires
        a.wf(),
        b.wf(),
    ensures
        r.wf(),
        r.model() == either_side(a.model(), b.model()),
{
    if a.is_some() || b.is_some() {
        Some((a, b))
    } else {
        None
    }
}

impl<X: Copy, A: ThreeFA<X>, B: ThreeFA<X>> ThreeFA<X> for Or<A, B> {
    type Pre = (Option<A::Pre>, Option<B::Pre>);

    type Active = (Option<A::Active>, Option<B::Active>);

    type Post = (Option<A::Post>, Option<B::Post>);

    open spec fn tfa_wf(&self) -> bool {
        self.0.tfa_wf() && self.1.tfa_wf()
    }

    open spec fn pre_start(&self) -> (
        Option<<A::Pre as Finite>::Model>,
        Option<<B::Pre as Finite>::Model>,
    ) {
        (Some(self.0.pre_start()), Some(self.1.pre_start()))
    }

    /// In every phase each side moves on its own, and the step is missing only
    /// when both sides are gone.
    open spec fn pre_step(
        &self,
        s: (Option<<A::Pre as Finite>::Model>, Option<<B::Pre as Finite>::Model>),
        c: X,
    ) -> Option<(Option<<A::Pre as Finite>::Model>, Option<<B::Pre as Finite>::Model>)> {
        either_side(opt_pre_step(&self.0, s.0, c), opt_pre_step(&self.1, s.1, c))
    }

    open spec fn active_step(
        &self,
        s: (Option<<A::Active as Finite>::Model>, Option<<B::Active as Finite>::Model>),
        c: X,
    ) -> Option<(Option<<A::Active as Finite>::Model>, Option<<B::Active as Finite>::Model>)> {
        either_side(opt_active_step(&self.0, s.0, c), opt_active_step(&self.1, s.1, c))
    }

    open spec fn post_step(
        &self,
        s: (Option<<A::Post as Finite>::Model>, Option<<B::Post as Finite>::Model>),
        c: X,
    ) -> Option<(Option<<A::Post as Finite>::Model>, Option<<B::Post as Finite>::Model>)> {
        either_side(opt_post_step(&self.0, s.0, c), opt_post_step(&self.1, s.1, c))
    }

    open spec fn post_accepting(
        &self,
        s: (Option<<A::Post as Finite>::Model>, Option<<B::Post as Finite>::Model>),
    ) -> bool {
        opt_post_accepting(&self.0, s.0) || opt_post_accepting(&self.1, s.1)
    }

    open spec fn entered(
        &self,
        s: (Option<<A::Pre as Finite>::Model>, Option<<B::Pre as Finite>::Model>),
    ) -> Option<(Option<<A::Active as Finite>::Model>, Option<<B::Active as Finite>::Model>)> {
        either_side(opt_entered(&self.0, s.0), opt_entered(&self.1, s.1))
    }

    open spec fn exited(
        &self,
        s: (Option<<A::Active as Finite>::Model>, Option<<B::Active as Finite>::Model>),
    ) -> Option<(Option<<A::Post as Finite>::Model>, Option<<B::Post as Finite>::Model>)> {
        either_side(opt_exited(&self.0, s.0), opt_exited(&self.1, s.1))
    }

    fn initial(&self) -> (s: Self::Pre) {
        (Some(self.0.initial()), Some(self.1.initial()))
    }

    fn step_pre(&self, state: Self::Pre, char: X) -> (r: Option<Self::Pre>) {
        let a = opt_step_pre(&self.0, state.0, char);
        let b = opt_step_pre(&self.1, state.1, char);
        keep_either(a, b)
    }

    fn step_active(&self, state: Self::Active, char: X) -> (r: Option<Self::Active>) {
        let a = opt_step_active(&self.0, state.0, char);
        let b = opt_step_active(&self.1, state.1, char);
        keep_either(a, b)
    }

    fn step_post(&self, state: Self::Post, char: X) -> (r: Option<Self::Post>) {
        let a = opt_step_post(&self.0, state.0, char);
        let b = opt_step_post(&self.1, state.1, char);
        keep_either(a, b)
    }

    fn accept(&self, state: &Self::Post) -> (b: bool) {
        opt_accept(&self.0, &state.0) || opt_accept(&self.1, &state.1)
    }

    fn enter(&self, state: Self::Pre) -> (r: Option<Self::Active>) {
        let a = opt_enter(&self.0, state.0);
        let b = opt_enter(&self.1, state.1);
        keep_either(a, b)
    }

    fn exit(&self, state: Self::Active) -> (r: Option<Self::Post>) {
        let a = opt_exit(&self.0, state.0);
        let b = opt_exit(&self.1, state.1);
        keep_either(a, b)
    }
}

} // verus!
