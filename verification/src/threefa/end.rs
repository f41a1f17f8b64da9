use vstd::prelude::*;
use crate::regex::End;
use crate::threefa::ThreeFA;

verus! {

impl<X> ThreeFA<X> for End {
    type Pre = ();

    type Active = ();

    type Post = ();

    open spec fn tfa_wf(&self) -> bool {
        true
    }

    open spec fn pre_start(&self) -> () {
        ()
    }

    open spec fn pre_step(&self, s: (), c: X) -> Option<()> {
        Some(())
    }

    open spec fn active_step(&self, s: (), c: X) -> Option<()> {
        None
    }

    /// No symbol may come after the end.
    open spec fn post_step(&self, s: (), c: X) -> Option<()> {
        None
    }

    open spec fn post_accepting(&self, s: ()) -> bool {
        true
    }

    open spec fn entered(&self, s: ()) -> Option<()> {
        Some(())
    }

    open spec fn exited(&self, s: ()) -> Option<()> {
        Some(())
    }

    fn initial(&self) -> (s: Self::Pre) {
        ()
    }

    fn step_pre(&self, state: Self::Pre, char: X) -> (r: Option<Self::Pre>) {
        Some(())
    }

    fn step_active(&self, state: Self::Active, char: X) -> (r: Option<Self::Active>) {
        None
    }

    fn step_post(&self, state: Self::Post, char: X) -> (r: Option<Self::Post>) {
        None
    }

    fn accept(&self, state: &Self::Post) -> (b: bool) {
        true
    }

    fn enter(&self, state: Self::Pre) -> (r: Option<Self::Active>) {
        Some(())
    }

    fn exit(&self, state: Self::Active) -> (r: Option<Self::Post>) {
        Some(())
    }
}

} // verus!
