use vstd::prelude::*;
use crate::finite::Finite;
use crate::regex::And;
use crate::threefa::ThreeFA;

verus! {

/// Both or nothing.
pub open spec fn both<S, T>(a: Option<S>, b: Option<T>) -> Option<(S, T)> {
    match (a, b) {
        (Some(x), Some(y)) => Some((x, y)),
        _ => None,
    }
}

/// Pairs two states up, if both are there.
pub fn pair_up<S: Finite, T: Finite>(a: Option<S>, b: Option<T>) -> (r: Option<(S, T)>)
    requires
        a.wf(),
        b.wf(),
    ensures
        r.wf(),
        r.model() == both(a.model(), b.model()),
{
    match (a, b) {
        (Some(x), Some(y)) => Some((x, y)),
        _ => None,
    }
}

impl<X: Copy, A: ThreeFA<X>, B: ThreeFA<X>> ThreeFA<X> for And<A, B> {
    type Pre = (A::Pre, B::Pre);

    type Active = (A::Active, B::Active);

    type Post = (A::Post, B::Post);

    open spec fn tfa_wf(&self) -> bool {
        self.0.tfa_wf() && self.1.tfa_wf()
    }

    open spec fn pre_start(&self) -> (<A::Pre as Finite>::Model, <B::Pre as Finite>::Model) {
        (self.0.pre_start(), self.1.pre_start())
    }

    /// In every phase both operands move, and the step is missing as soon as
    /// one of theirs is.
    open spec fn pre_step(
        &self,
        s: (<A::Pre as Finite>::Model, <B::Pre as Finite>::Model),
        c: X,
    ) -> Option<(<A::Pre as Finite>::Model, <B::Pre as Finite>::Model)> {
        both(self.0.pre_step(s.0, c), self.1.pre_step(s.1, c))
    }

    open spec fn active_step(
        &self,
        s: (<A::Active as Finite>::Model, <B::Active as Finite>::Model),
        c: X,
    ) -> Option<(<A::Active as Finite>::Model, <B::Active as Finite>::Model)> {
        both(self.0.active_step(s.0, c), self.1.active_step(s.1, c))
    }

    open spec fn post_step(
        &self,
        s: (<A::Post as Finite>::Model, <B::Post as Finite>::Model),
        c: X,
    ) -> Option<(<A::Post as Finite>::Model, <B::Post as Finite>::Model)> {
        both(self.0.post_step(s.0, c), self.1.post_step(s.1, c))
    }

    open spec fn post_accepting(
        &self,
        s: (<A::Post as Finite>::Model, <B::Post as Finite>::Model),
    ) -> bool {
        self.0.post_accepting(s.0) && self.1.post_accepting(s.1)
    }

    open spec fn entered(&self, s: (<A::Pre as Finite>::Model, <B::Pre as Finite>::Model)) -> Option<
        (<A::Active as Finite>::Model, <B::Active as Finite>::Model),
    > {
        both(self.0.entered(s.0), self.1.entered(s.1))
    }

    open spec fn exited(
        &self,
        s: (<A::Active as Finite>::Model, <B::Active as Finite>::Model),
    ) -> Option<(<A::Post as Finite>::Model, <B::Post as Finite>::Model)> {
        both(self.0.exited(s.0), self.1.exited(s.1))
    }

    fn initial(&self) -> (s: Self::Pre) {
        (self.0.initial(), self.1.initial())
    }

    fn step_pre(&self, state: Self::Pre, char: X) -> (r: Option<Self::Pre>) {
        pair_up(self.0.step_pre(state.0, char), self.1.step_pre(state.1, char))
    }

    fn step_active(&self, state: Self::Active, char: X) -> (r: Option<Self::Active>) {
        pair_up(self.0.step_active(state.0, char), self.1.step_active(state.1, char))
    }

    fn step_post(&self, state: Self::Post, char: X) -> (r: Option<Self::Post>) {
        pair_up(self.0.step_post(state.0, char), self.1.step_post(state.1, char))
    }

    fn accept(&self, state: &Self::Post) -> (b: bool) {
        self.0.accept(&state.0) && self.1.accept(&state.1)
    }

    fn enter(&self, state: Self::Pre) -> (r: Option<Self::Active>) {
        pair_up(self.0.enter(state.0), self.1.enter(state.1))
    }

    fn exit(&self, state: Self::Active) -> (r: Option<Self::Post>) {
        pair_up(self.0.exit(state.0), self.1.exit(state.1))
    }
}

} // verus!
