//! Running an automaton on an input.
use vstd::prelude::*;
use crate::dfa::{Dfa, accepts, run};
use crate::finite::Finite;

verus! {

/// Decides whether `dfa` accepts `word`: follows the transitions from the
/// initial state and fails at the first missing one.
pub fn matches<X: Copy, D: Dfa<X>>(dfa: D, word: &[X]) -> (b: bool)
    requires
        dfa.dfa_wf(),
    ensures
        b == accepts(&dfa, word@),
{
    let mut state = dfa.initial();
    let n = word.len();
    let mut i: usize = 0;
    proof {
        assert(word@.take(0) =~= Seq::<X>::empty());
    }
    while i < n
        invariant
            dfa.dfa_wf(),
            n == word@.len(),
            i <= n,
            state.wf(),
            run(&dfa, word@.take(i as int)) == Some(state.model()),
        decreases n - i,
    {
        let ghost before = word@.take(i as int);
        proof {
            assert(word@.take(i + 1).drop_last() =~= before);
            assert(word@.take(i + 1).last() == word@[i as int]);
        }
        match dfa.next(state, word[i]) {
            Some(x) => {
                state = x;
            },
            None => {
                proof {
                    assert(word@ =~= word@.take(i + 1) + word@.skip(i + 1));
                    crate::dfa::lemma_run_dead(&dfa, word@.take(i + 1), word@.skip(i + 1));
                }
                return false;
            },
        }
        i += 1;
    }
    proof {
        assert(word@.take(n as int) =~= word@);
    }
    dfa.accept(&state)
}

} // verus!
