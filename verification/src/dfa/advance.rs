//! Moving a whole set of states at once.
use vstd::prelude::*;
use crate::dfa::Dfa;
use crate::finite::Finite;
use crate::ordset::{OrdSet, collect, any_of};
use crate::sorted::image;

verus! {

/// The states reached on `c` from the states in `set`.
pub open spec fn successors<X, D: Dfa<X>>(
    d: &D,
    set: Set<<D::State as Finite>::Model>,
    c: X,
) -> Set<<D::State as Finite>::Model> {
    image(set, |s: <D::State as Finite>::Model| d.step(s, c))
}

/// A state that a state of `set` leads to on `c` is among the successors.
pub proof fn lemma_successors_hold<X, D: Dfa<X>>(
    d: &D,
    set: Set<<D::State as Finite>::Model>,
    c: X,
    s: <D::State as Finite>::Model,
)
    requires
        set.contains(s),
        d.step(s, c) is Some,
    ensures
        successors(d, set, c).contains(d.step(s, c).unwrap()),
{
    let f = |s: <D::State as Finite>::Model| d.step(s, c);
    assert(f(s) == Some(d.step(s, c).unwrap()));
}

/// Each successor comes from a state of `set`.
pub proof fn lemma_successors_origin<X, D: Dfa<X>>(
    d: &D,
    set: Set<<D::State as Finite>::Model>,
    c: X,
    t: <D::State as Finite>::Model,
) -> (s: <D::State as Finite>::Model)
    requires
        successors(d, set, c).contains(t),
    ensures
        set.contains(s),
        d.step(s, c) == Some(t),
{
    let f = |s: <D::State as Finite>::Model| d.step(s, c);
    choose|s: <D::State as Finite>::Model| set.contains(s) && #[trigger] f(s) == Some(t)
}

/// Whether `set` holds an accepting state.
pub open spec fn any_accepting<X, D: Dfa<X>>(d: &D, set: Set<<D::State as Finite>::Model>) -> bool {
    exists|s: <D::State as Finite>::Model| set.contains(s) && #[trigger] d.accepting(s)
}

/// Moves every state of `set` on `char` and collects those that have a transition.
pub fn advance<X: Copy, D: Dfa<X>>(d: &D, set: &OrdSet<D::State>, char: X) -> (out: OrdSet<
    D::State,
>)
    requires
        d.dfa_wf(),
        set.wf(),
    ensures
        out.wf(),
        out.elems() == successors(d, set.elems(), char),
{
    let f = |x: &D::State| -> (r: Option<D::State>)
        requires
            d.dfa_wf(),
            x.wf(),
        ensures
            r.wf(),
            r.model() == d.step(x.model(), char),
        { d.next(x.duplicate(), char) };
    collect(set, f, Ghost(|s: <D::State as Finite>::Model| d.step(s, char)))
}

/// Whether some state of `set` is accepting.
pub fn accept_any<X, D: Dfa<X>>(d: &D, set: &OrdSet<D::State>) -> (b: bool)
    requires
        d.dfa_wf(),
        set.wf(),
    ensures
        b == any_accepting(d, set.elems()),
{
    let f = |x: &D::State| -> (r: bool)
        requires
            d.dfa_wf(),
            x.wf(),
        ensures
            r == d.accepting(x.model()),
        { d.accept(x) };
    let ghost p = |s: <D::State as Finite>::Model| d.accepting(s);
    let b = any_of(set, f, Ghost(p));
    proof {
        if any_accepting(d, set.elems()) {
            let s = choose|s: <D::State as Finite>::Model|
                set.elems().contains(s) && #[trigger] d.accepting(s);
            assert(p(s));
        }
        if b {
            let s = choose|s: <D::State as Finite>::Model|
                set.elems().contains(s) && #[trigger] p(s);
            assert(d.accepting(s));
        }
    }
    b
}

} // verus!
