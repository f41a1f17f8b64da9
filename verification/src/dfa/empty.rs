use vstd::prelude::*;
use crate::dfa::Dfa;
use crate::regex::Empty;

verus! {

impl<X> Dfa<X> for Empty {
    type State = ();

    open spec fn dfa_wf(&self) -> bool {
        true
    }

    open spec fn start(&self) -> () {
        ()
    }

    /// No symbol can be read.
    open spec fn step(&self, s: (), c: X) -> Option<()> {
        None
    }

    open spec fn accepting(&self, s: ()) -> bool {
        true
    }

    fn initial(&self) -> (s: Self::State) {
    }

    fn next(&self, state: Self::State, char: X) -> (r: Option<Self::State>) {
        None
    }

    fn accept(&self, state: &Self::State) -> (b: bool) {
        true
    }
}

} // verus!
