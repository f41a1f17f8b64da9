use vstd::prelude::*;
use crate::finite::Finite;
use crate::regex::Not;
use crate::threefa::{
    ThreeFA,
    opt_pre_step,
    opt_active_step,
    opt_post_step,
    opt_entered,
    opt_exited,
    opt_post_accepting,
    opt_step_pre,
    opt_step_active,
    opt_step_post,
    opt_enter,
    opt_exit,
    opt_accept,
};

verus! {

impl<X: Copy, A: ThreeFA<X>> ThreeFA<X> for Not<A> {
    type Pre = Option<A::Pre>;

    type Active = Option<A::Active>;

    type Post = Option<A::Post>;

    open spec fn tfa_wf(&self) -> bool {
        self.0.tfa_wf()
    }

    open spec fn pre_start(&self) -> Option<<A::Pre as Finite>::Model> {
        Some(self.0.pre_start())
    }

    /// Never missing, in any phase: where the operand is gone, the complement goes on in `None`.
    open spec fn pre_step(&self, s: Option<<A::Pre as Finite>::Model>, c: X) -> Option<
        Option<<A::Pre as Finite>::Model>,
    > {
        Some(opt_pre_step(&self.0, s, c))
    }

    open spec fn active_step(&self, s: Option<<A::Active as Finite>::Model>, c: X) -> Option<
        Option<<A::Active as Finite>::Model>,
    > {
        Some(opt_active_step(&self.0, s, c))
    }

    open spec fn post_step(&self, s: Option<<A::Post as Finite>::Model>, c: X) -> Option<
        Option<<A::Post as Finite>::Model>,
    > {
        Some(opt_post_step(&self.0, s, c))
    }

    open spec fn post_accepting(&self, s: Option<<A::Post as Finite>::Model>) -> bool {
        !opt_post_accepting(&self.0, s)
    }

    open spec fn entered(&self, s: Option<<A::Pre as Finite>::Model>) -> Option<
        Option<<A::Active as Finite>::Model>,
    > {
        Some(opt_entered(&self.0, s))
    }

    open spec fn exited(&self, s: Option<<A::Active as Finite>::Model>) -> Option<
        Option<<A::Post as Finite>::Model>,
    > {
        Some(opt_exited(&self.0, s))
    }

    fn initial(&self) -> (s: Self::Pre) {
        Some(self.0.initial())
    }

    fn step_pre(&self, state: Self::Pre, char: X) -> (r: Option<Self::Pre>) {
        Some(opt_step_pre(&self.0, state, char))
    }

    fn step_active(&self, state: Self::Active, char: X) -> (r: Option<Self::Active>) {
        Some(opt_step_active(&self.0, state, char))
    }

    fn step_post(&self, state: Self::Post, char: X) -> (r: Option<Self::Post>) {
        Some(opt_step_post(&self.0, state, char))
    }

    fn accept(&self, state: &Self::Post) -> (b: bool) {
        !opt_accept(&self.0, state)
    }

    fn enter(&self, state: Self::Pre) -> (r: Option<Self::Active>) {
        Some(opt_enter(&self.0, state))
    }

    fn exit(&self, state: Self::Active) -> (r: Option<Self::Post>) {
        Some(opt_exit(&self.0, state))
    }
}

} // verus!
