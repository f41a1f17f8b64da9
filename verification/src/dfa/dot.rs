use vstd::prelude::*;
use crate::dfa::Dfa;
use crate::regex::Dot;

verus! {

impl<X> Dfa<X> for Dot {
    /// Whether the one symbol has been read.
    type State = bool;

    open spec fn dfa_wf(&self) -> bool {
        true
    }

    open spec fn start(&self) -> bool {
        false
    }

    open spec fn step(&self, s: bool, c: X) -> Option<bool> {
        if s {
            None
        } else {
            Some(true)
        }
    }

    open spec fn accepting(&self, s: bool) -> bool {
        s
    }

    fn initial(&self) -> (s: Self::State) {
        false
    }

    fn next(&self, state: Self::State, char: X) -> (r: Option<Self::State>) {
        match state {
            false => Some(true),
            _ => None,
        }
    }

    fn accept(&self, state: &Self::State) -> (b: bool) {
        *state
    }
}

} // verus!
