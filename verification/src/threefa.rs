//! Three-phase automata.
//!
//! A three-phase automaton stands for a part of a pattern. It runs in the
//! `Pre` phase on the input to the left of the part's match, in the `Active`
//! phase on the match itself, and in the `Post` phase on the input to the right
//! of it. `enter` and `exit` lead from one phase to the next without reading a
//! symbol. Anchors and lookaround are at home here: they look at the input that
//! lies outside their own match.
use vstd::prelude::*;
use crate::finite::Finite;
use crate::ordset::{OrdSet, collect_into, any_of};
use crate::sorted::image;

pub mod and;
pub mod concat;
pub mod end;
pub mod from_dfa;
pub mod lookahead;
pub mod lookbehind;
pub mod not;
pub mod or;
pub mod plus;
pub mod start;
pub mod to_dfa;

verus! {

/// A three-phase automaton over the alphabet `X`.
///
/// The specification functions say what the automaton is, over the models of
/// its states; the executable functions compute them. A missing step drops
/// the branch; a missing `enter` or `exit` means that the match cannot begin or
/// end at this point.
pub trait ThreeFA<X> {
    type Pre: Finite;

    type Active: Finite;

    type Post: Finite;

    /// What the automaton needs in order to work as specified.
    spec fn tfa_wf(&self) -> bool;

    spec fn pre_start(&self) -> <Self::Pre as Finite>::Model;

    spec fn pre_step(&self, s: <Self::Pre as Finite>::Model, c: X) -> Option<
        <Self::Pre as Finite>::Model,
    >;

    spec fn active_step(&self, s: <Self::Active as Finite>::Model, c: X) -> Option<
        <Self::Active as Finite>::Model,
    >;

    spec fn post_step(&self, s: <Self::Post as Finite>::Model, c: X) -> Option<
        <Self::Post as Finite>::Model,
    >;

    spec fn post_accepting(&self, s: <Self::Post as Finite>::Model) -> bool;

    spec fn entered(&self, s: <Self::Pre as Finite>::Model) -> Option<
        <Self::Active as Finite>::Model,
    >;

    spec fn exited(&self, s: <Self::Active as Finite>::Model) -> Option<
        <Self::Post as Finite>::Model,
    >;

    fn initial(&self) -> (s: Self::Pre)
        requires
            self.tfa_wf(),
        ensures
            s.wf(),
            s.model() == self.pre_start(),
    ;

    fn step_pre(&self, state: Self::Pre, char: X) -> (r: Option<Self::Pre>)
        requires
            self.tfa_wf(),
            state.wf(),
        ensures
            r.wf(),
            r.model() == self.pre_step(state.model(), char),
    ;

    fn step_active(&self, state: Self::Active, char: X) -> (r: Option<Self::Active>)
        requires
            self.tfa_wf(),
            state.wf(),
        ensures
            r.wf(),
            r.model() == self.active_step(state.model(), char),
    ;

    fn step_post(&self, state: Self::Post, char: X) -> (r: Option<Self::Post>)
        requires
            self.tfa_wf(),
            state.wf(),
        ensures
            r.wf(),
            r.model() == self.post_step(state.model(), char),
    ;

    fn accept(&self, state: &Self::Post) -> (b: bool)
        requires
            self.tfa_wf(),
            state.wf(),
        ensures
            b == self.post_accepting(state.model()),
    ;

    fn enter(&self, state: Self::Pre) -> (r: Option<Self::Active>)
        requires
            self.tfa_wf(),
            state.wf(),
        ensures
            r.wf(),
            r.model() == self.entered(state.model()),
    ;

    fn exit(&self, state: Self::Active) -> (r: Option<Self::Post>)
        requires
            self.tfa_wf(),
            state.wf(),
        ensures
            r.wf(),
            r.model() == self.exited(state.model()),
    ;
}

/// A `Pre` state that may be gone already: it steps while it is there.
pub open spec fn opt_pre_step<X, A: ThreeFA<X>>(
    a: &A,
    o: Option<<A::Pre as Finite>::Model>,
    c: X,
) -> Option<<A::Pre as Finite>::Model> {
    match o {
        Some(s) => a.pre_step(s, c),
        None => None,
    }
}

/// An `Active` state that may be gone already: it steps while it is there.
pub open spec fn opt_active_step<X, A: ThreeFA<X>>(
    a: &A,
    o: Option<<A::Active as Finite>::Model>,
    c: X,
) -> Option<<A::Active as Finite>::Model> {
    match o {
        Some(s) => a.active_step(s, c),
        None => None,
    }
}

/// A `Post` state that may be gone already: it steps while it is there.
pub open spec fn opt_post_step<X, A: ThreeFA<X>>(
    a: &A,
    o: Option<<A::Post as Finite>::Model>,
    c: X,
) -> Option<<A::Post as Finite>::Model> {
    match o {
        Some(s) => a.post_step(s, c),
        None => None,
    }
}

/// A `Pre` state that may be gone already: it enters if it is there and can.
pub open spec fn opt_entered<X, A: ThreeFA<X>>(a: &A, o: Option<<A::Pre as Finite>::Model>) -> Option<
    <A::Active as Finite>::Model,
> {
    match o {
        Some(s) => a.entered(s),
        None => None,
    }
}

/// An `Active` state that may be gone already: it exits if it is there and can.
pub open spec fn opt_exited<X, A: ThreeFA<X>>(
    a: &A,
    o: Option<<A::Active as Finite>::Model>,
) -> Option<<A::Post as Finite>::Model> {
    match o {
        Some(s) => a.exited(s),
        None => None,
    }
}

/// Whether a `Post` state is there and accepting.
pub open spec fn opt_post_accepting<X, A: ThreeFA<X>>(
    a: &A,
    o: Option<<A::Post as Finite>::Model>,
) -> bool {
    match o {
        Some(s) => a.post_accepting(s),
        None => false,
    }
}

/// Steps a `Pre` state that may be gone already.
pub fn opt_step_pre<X, A: ThreeFA<X>>(a: &A, state: Option<A::Pre>, char: X) -> (r: Option<A::Pre>)
    requires
        a.tfa_wf(),
        state.wf(),
    ensures
        r.wf(),
        r.model() == opt_pre_step(a, state.model(), char),
{
    match state {
        Some(s) => a.step_pre(s, char),
        None => None,
    }
}

/// Steps an `Active` state that may be gone already.
pub fn opt_step_active<X, A: ThreeFA<X>>(a: &A, state: Option<A::Active>, char: X) -> (r: Option<
    A::Active,
>)
    requires
        a.tfa_wf(),
        state.wf(),
    ensures
        r.wf(),
        r.model() == opt_active_step(a, state.model(), char),
{
    match state {
        Some(s) => a.step_active(s, char),
        None => None,
    }
}

/// Steps a `Post` state that may be gone already.
pub fn opt_step_post<X, A: ThreeFA<X>>(a: &A, state: Option<A::Post>, char: X) -> (r: Option<
    A::Post,
>)
    requires
        a.tfa_wf(),
        state.wf(),
    ensures
        r.wf(),
        r.model() == opt_post_step(a, state.model(), char),
{
    match state {
        Some(s) => a.step_post(s, char),
        None => None,
    }
}

/// Enters from a `Pre` state that may be gone already.
pub fn opt_enter<X, A: ThreeFA<X>>(a: &A, state: Option<A::Pre>) -> (r: Option<A::Active>)
    requires
        a.tfa_wf(),
        state.wf(),
    ensures
        r.wf(),
        r.model() == opt_entered(a, state.model()),
{
    match state {
        Some(s) => a.enter(s),
        None => None,
    }
}

/// Exits from an `Active` state that may be gone already.
pub fn opt_exit<X, A: ThreeFA<X>>(a: &A, state: Option<A::Active>) -> (r: Option<A::Post>)
    requires
        a.tfa_wf(),
        state.wf(),
    ensures
        r.wf(),
        r.model() == opt_exited(a, state.model()),
{
    match state {
        Some(s) => a.exit(s),
        None => None,
    }
}

/// Tells whether a `Post` state is there and accepting.
pub fn opt_accept<X, A: ThreeFA<X>>(a: &A, state: &Option<A::Post>) -> (b: bool)
    requires
        a.tfa_wf(),
        state.wf(),
    ensures
        b == opt_post_accepting(a, state.model()),
{
    match state {
        Some(s) => a.accept(s),
        None => false,
    }
}

/// The set of what `o` holds: one element or none.
pub open spec fn option_set<T>(o: Option<T>) -> Set<T> {
    match o {
        Some(x) => set![x],
        None => Set::empty(),
    }
}

/// The `Pre` states reached on `c` from those in `set`.
pub open spec fn pre_moves<X, A: ThreeFA<X>>(a: &A, set: Set<<A::Pre as Finite>::Model>, c: X) -> Set<
    <A::Pre as Finite>::Model,
> {
    image(set, |s: <A::Pre as Finite>::Model| a.pre_step(s, c))
}

/// The `Active` states reached on `c` from those in `set`.
pub open spec fn active_moves<X, A: ThreeFA<X>>(
    a: &A,
    set: Set<<A::Active as Finite>::Model>,
    c: X,
) -> Set<<A::Active as Finite>::Model> {
    image(set, |s: <A::Active as Finite>::Model| a.active_step(s, c))
}

/// The `Post` states reached on `c` from those in `set`.
pub open spec fn post_moves<X, A: ThreeFA<X>>(
    a: &A,
    set: Set<<A::Post as Finite>::Model>,
    c: X,
) -> Set<<A::Post as Finite>::Model> {
    image(set, |s: <A::Post as Finite>::Model| a.post_step(s, c))
}

/// The `Active` states that the `Pre` states in `set` can enter.
pub open spec fn entries<X, A: ThreeFA<X>>(a: &A, set: Set<<A::Pre as Finite>::Model>) -> Set<
    <A::Active as Finite>::Model,
> {
    image(set, |s: <A::Pre as Finite>::Model| a.entered(s))
}

/// The `Post` states that the `Active` states in `set` can exit to.
pub open spec fn exits<X, A: ThreeFA<X>>(a: &A, set: Set<<A::Active as Finite>::Model>) -> Set<
    <A::Post as Finite>::Model,
> {
    image(set, |s: <A::Active as Finite>::Model| a.exited(s))
}

/// Whether `set` holds an accepting `Post` state.
pub open spec fn any_post_accepting<X, A: ThreeFA<X>>(
    a: &A,
    set: Set<<A::Post as Finite>::Model>,
) -> bool {
    exists|s: <A::Post as Finite>::Model| set.contains(s) && #[trigger] a.post_accepting(s)
}

/// Adds what `o` holds, if anything, to `out`.
pub fn insert_option<T: Finite>(out: &mut OrdSet<T>, o: Option<T>)
    requires
        old(out).wf(),
        o.wf(),
    ensures
        final(out).wf(),
        final(out).elems() == old(out).elems().union(option_set(o.model())),
{
    match o {
        Some(x) => {
            out.insert(x);
            proof {
                assert(out.elems() =~= old(out).elems().union(set![x.model()]));
            }
        },
        None => {
            proof {
                assert(out.elems() =~= old(out).elems().union(Set::empty()));
            }
        },
    }
}

/// Adds to `out` the `Pre` states reached on `char` from those in `set`.
pub fn step_pre_into<X: Copy, A: ThreeFA<X>>(
    a: &A,
    set: &OrdSet<A::Pre>,
    char: X,
    out: &mut OrdSet<A::Pre>,
)
    requires
        a.tfa_wf(),
        set.wf(),
        old(out).wf(),
    ensures
        final(out).wf(),
        final(out).elems() == old(out).elems().union(pre_moves(a, set.elems(), char)),
{
    let f = |x: &A::Pre| -> (r: Option<A::Pre>)
        requires
            a.tfa_wf(),
            x.wf(),
        ensures
            r.wf(),
            r.model() == a.pre_step(x.model(), char),
        { a.step_pre(x.duplicate(), char) };
    collect_into(set, f, out, Ghost(|s: <A::Pre as Finite>::Model| a.pre_step(s, char)));
}

/// Adds to `out` the `Active` states reached on `char` from those in `set`.
pub fn step_active_into<X: Copy, A: ThreeFA<X>>(
    a: &A,
    set: &OrdSet<A::Active>,
    char: X,
    out: &mut OrdSet<A::Active>,
)
    requires
        a.tfa_wf(),
        set.wf(),
        old(out).wf(),
    ensures
        final(out).wf(),
        final(out).elems() == old(out).elems().union(active_moves(a, set.elems(), char)),
{
    let f = |x: &A::Active| -> (r: Option<A::Active>)
        requires
            a.tfa_wf(),
            x.wf(),
        ensures
            r.wf(),
            r.model() == a.active_step(x.model(), char),
        { a.step_active(x.duplicate(), char) };
    collect_into(set, f, out, Ghost(|s: <A::Active as Finite>::Model| a.active_step(s, char)));
}

/// Adds to `out` the `Post` states reached on `char` from those in `set`.
pub fn step_post_into<X: Copy, A: ThreeFA<X>>(
    a: &A,
    set: &OrdSet<A::Post>,
    char: X,
    out: &mut OrdSet<A::Post>,
)
    requires
        a.tfa_wf(),
        set.wf(),
        old(out).wf(),
    ensures
        final(out).wf(),
        final(out).elems() == old(out).elems().union(post_moves(a, set.elems(), char)),
{
    let f = |x: &A::Post| -> (r: Option<A::Post>)
        requires
            a.tfa_wf(),
            x.wf(),
        ensures
            r.wf(),
            r.model() == a.post_step(x.model(), char),
        { a.step_post(x.duplicate(), char) };
    collect_into(set, f, out, Ghost(|s: <A::Post as Finite>::Model| a.post_step(s, char)));
}

/// Adds to `out` the `Active` states that the `Pre` states in `set` can enter.
pub fn enter_into<X, A: ThreeFA<X>>(a: &A, set: &OrdSet<A::Pre>, out: &mut OrdSet<A::Active>)
    requires
        a.tfa_wf(),
        set.wf(),
        old(out).wf(),
    ensures
        final(out).wf(),
        final(out).elems() == old(out).elems().union(entries(a, set.elems())),
{
    let f = |x: &A::Pre| -> (r: Option<A::Active>)
        requires
            a.tfa_wf(),
            x.wf(),
        ensures
            r.wf(),
            r.model() == a.entered(x.model()),
        { a.enter(x.duplicate()) };
    collect_into(set, f, out, Ghost(|s: <A::Pre as Finite>::Model| a.entered(s)));
}

/// Adds to `out` the `Post` states that the `Active` states in `set` can exit to.
pub fn exit_into<X, A: ThreeFA<X>>(a: &A, set: &OrdSet<A::Active>, out: &mut OrdSet<A::Post>)
    requires
        a.tfa_wf(),
        set.wf(),
        old(out).wf(),
    ensures
        final(out).wf(),
        final(out).elems() == old(out).elems().union(exits(a, set.elems())),
{
    let f = |x: &A::Active| -> (r: Option<A::Post>)
        requires
            a.tfa_wf(),
            x.wf(),
        ensures
            r.wf(),
            r.model() == a.exited(x.model()),
        { a.exit(x.duplicate()) };
    collect_into(set, f, out, Ghost(|s: <A::Active as Finite>::Model| a.exited(s)));
}

/// Whether some `Post` state of `set` is accepting.
pub fn accept_any_post<X, A: ThreeFA<X>>(a: &A, set: &OrdSet<A::Post>) -> (b: bool)
    requires
        a.tfa_wf(),
        set.wf(),
    ensures
        b == any_post_accepting(a, set.elems()),
{
    let f = |x: &A::Post| -> (r: bool)
        requires
            a.tfa_wf(),
            x.wf(),
        ensures
            r == a.post_accepting(x.model()),
        { a.accept(x) };
    let ghost p = |s: <A::Post as Finite>::Model| a.post_accepting(s);
    let b = any_of(set, f, Ghost(p));
    proof {
        if any_post_accepting(a, set.elems()) {
            let s = choose|s: <A::Post as Finite>::Model|
                set.elems().contains(s) && #[trigger] a.post_accepting(s);
            assert(p(s));
        }
        if b {
            let s = choose|s: <A::Post as Finite>::Model| set.elems().contains(s) && #[trigger] p(s);
            assert(a.post_accepting(s));
        }
    }
    b
}

} // verus!
