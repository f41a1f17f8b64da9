//! What a three-phase automaton matches, and why running it as a
//! deterministic automaton is right.
//!
//! A three-phase automaton matches an input between two positions if it can
//! read the input up to the first position in its `Pre` phase, enter, read the
//! input between the positions in its `Active` phase, exit, read the rest of
//! the input in its `Post` phase, and accept. The deterministic automaton that
//! `ToDfa` makes of it accepts an input exactly if the three-phase automaton
//! matches it between some two positions.
use vstd::prelude::*;
use crate::dfa::{accepts, run};
use crate::finite::Finite;
use crate::regex::ToDfa;
use crate::sorted::{
    canon,
    image,
    strictly_sorted,
    lemma_canon,
    lemma_canon_of_sorted,
    lemma_image_finite,
};
use crate::threefa::{
    ThreeFA,
    option_set,
    opt_pre_step,
    opt_active_step,
    opt_post_step,
    opt_entered,
    opt_exited,
    opt_post_accepting,
    active_moves,
    post_moves,
    exits,
    any_post_accepting,
};
use crate::threefa::to_dfa::{to_dfa_active, to_dfa_post};

pub mod basic;
pub mod lookaround;
pub mod repetition;
pub mod sequence;

verus! {

/// The `Pre` state after `w`, if no step is missing on the way.
pub open spec fn pre_run<X, A: ThreeFA<X>>(a: &A, w: Seq<X>) -> Option<<A::Pre as Finite>::Model>
    decreases w.len(),
{
    if w.len() == 0 {
        Some(a.pre_start())
    } else {
        opt_pre_step(a, pre_run(a, w.drop_last()), w.last())
    }
}

/// The `Active` state reached from `s` by reading `w`, if `s` is there and no
/// step is missing on the way.
pub open spec fn active_run<X, A: ThreeFA<X>>(
    a: &A,
    s: Option<<A::Active as Finite>::Model>,
    w: Seq<X>,
) -> Option<<A::Active as Finite>::Model>
    decreases w.len(),
{
    if w.len() == 0 {
        s
    } else {
        opt_active_step(a, active_run(a, s, w.drop_last()), w.last())
    }
}

/// The `Post` state reached from `s` by reading `w`, if `s` is there and no
/// step is missing on the way.
pub open spec fn post_run<X, A: ThreeFA<X>>(
    a: &A,
    s: Option<<A::Post as Finite>::Model>,
    w: Seq<X>,
) -> Option<<A::Post as Finite>::Model>
    decreases w.len(),
{
    if w.len() == 0 {
        s
    } else {
        opt_post_step(a, post_run(a, s, w.drop_last()), w.last())
    }
}

/// A state that is gone stays gone, in the `Active` phase.
pub proof fn lemma_active_run_gone<X, A: ThreeFA<X>>(a: &A, w: Seq<X>)
    ensures
        active_run(a, None, w) is None,
    decreases w.len(),
{
    if w.len() > 0 {
        lemma_active_run_gone(a, w.drop_last());
    }
}

/// A state that is gone stays gone, in the `Post` phase.
pub proof fn lemma_post_run_gone<X, A: ThreeFA<X>>(a: &A, w: Seq<X>)
    ensures
        post_run(a, None, w) is None,
    decreases w.len(),
{
    if w.len() > 0 {
        lemma_post_run_gone(a, w.drop_last());
    }
}

/// Reading `u` and then `v` in the `Post` phase is reading `u + v`.
pub proof fn lemma_post_run_concat<X, A: ThreeFA<X>>(
    a: &A,
    s: Option<<A::Post as Finite>::Model>,
    u: Seq<X>,
    v: Seq<X>,
)
    ensures
        post_run(a, post_run(a, s, u), v) == post_run(a, s, u + v),
    decreases v.len(),
{
    if v.len() == 0 {
        assert(u + v =~= u);
    } else {
        lemma_post_run_concat(a, s, u, v.drop_last());
        assert((u + v).drop_last() =~= u + v.drop_last());
        assert((u + v).last() == v.last());
    }
}

/// The match between `i` and `k`, seen from a later position `j`, goes on to
/// the match between `i` and `k` seen from the end of the input.
pub proof fn lemma_ended_later<X, A: ThreeFA<X>>(a: &A, w: Seq<X>, i: int, k: int, j: int)
    requires
        0 <= i <= k <= j <= w.len(),
    ensures
        post_run(a, ended(a, w.take(j), i, k), w.skip(j)) == ended(a, w, i, k),
{
    let v = w.take(j);
    assert(v.take(k) =~= w.take(k));
    assert(v.skip(k) + w.skip(j) =~= w.skip(k));
    lemma_post_run_concat(a, opt_exited(a, begun(a, w.take(k), i)), v.skip(k), w.skip(j));
}

/// The state that stands for a set of alternatives: gone if there is none.
pub open spec fn set_state<T: Finite>(s: Set<T::Model>) -> Option<Seq<T::Model>> {
    if s != Set::<T::Model>::empty() {
        Some(canon::<T>(s))
    } else {
        None
    }
}

/// The image of at most one element is at most one element.
pub proof fn lemma_image_option<A, B>(o: Option<A>, f: spec_fn(A) -> Option<B>)
    ensures
        image(option_set(o), f) == option_set(
            match o {
                Some(x) => f(x),
                None => None,
            },
        ),
{
    let lhs = image(option_set(o), f);
    let rhs = option_set(
        match o {
            Some(x) => f(x),
            None => None,
        },
    );
    assert forall|b: B| lhs.contains(b) implies rhs.contains(b) by {
        let a = choose|a: A| option_set(o).contains(a) && #[trigger] f(a) == Some(b);
    }
    assert forall|b: B| rhs.contains(b) implies lhs.contains(b) by {
        let x = o.unwrap();
        assert(option_set(o).contains(x));
        assert(f(x) == Some(b));
    }
    assert(lhs =~= rhs);
}

/// The one-element sequence is the canonical listing of the one-element set.
pub proof fn lemma_canon_single<T: Finite>(x: T::Model)
    ensures
        canon::<T>(set![x]) == seq![x],
        canon::<T>(option_set(Some(x))) == seq![x],
{
    let q = seq![x];
    assert(strictly_sorted::<T>(q));
    assert(q.to_set() =~= set![x]) by {
        assert(q[0] == x);
        assert(q.contains(x));
    }
    lemma_canon_of_sorted::<T>(q);
}

/// The canonical listing of at most one element lists that element, if any.
pub proof fn lemma_canon_option<T: Finite>(o: Option<T::Model>)
    ensures
        option_set(o).finite(),
        canon::<T>(option_set(o)).to_set() == option_set(o),
{
    lemma_canon::<T>(option_set(o));
}

/// The `Post` states that those in `set` lead to by reading `rest`.
pub open spec fn posts_after<X, A: ThreeFA<X>>(
    a: &A,
    set: Set<<A::Post as Finite>::Model>,
    rest: Seq<X>,
) -> Set<<A::Post as Finite>::Model> {
    image(set, |q: <A::Post as Finite>::Model| post_run(a, Some(q), rest))
}

/// How the `Post` states that a set leads to change with one more symbol.
pub proof fn lemma_posts_after_push<X, A: ThreeFA<X>>(
    a: &A,
    set: Set<<A::Post as Finite>::Model>,
    r: Seq<X>,
    c: X,
)
    ensures
        posts_after(a, set, r.push(c)) == post_moves(a, posts_after(a, set, r), c),
{
    let rest = r.push(c);
    let f0 = |q: <A::Post as Finite>::Model| post_run(a, Some(q), r);
    let f1 = |q: <A::Post as Finite>::Model| post_run(a, Some(q), rest);
    let g = |q: <A::Post as Finite>::Model| a.post_step(q, c);
    let lhs = posts_after(a, set, rest);
    let rhs = post_moves(a, posts_after(a, set, r), c);
    assert(rest.drop_last() =~= r);
    assert forall|q: <A::Post as Finite>::Model| lhs.contains(q) implies rhs.contains(q) by {
        let q0 = choose|q0: <A::Post as Finite>::Model|
            set.contains(q0) && #[trigger] f1(q0) == Some(q);
        let q1 = post_run(a, Some(q0), r).unwrap();
        assert(f0(q0) == Some(q1));
        assert(posts_after(a, set, r).contains(q1));
        assert(g(q1) == Some(q));
    }
    assert forall|q: <A::Post as Finite>::Model| rhs.contains(q) implies lhs.contains(q) by {
        let q1 = choose|q1: <A::Post as Finite>::Model|
            posts_after(a, set, r).contains(q1) && #[trigger] g(q1) == Some(q);
        let q0 = choose|q0: <A::Post as Finite>::Model|
            set.contains(q0) && #[trigger] f0(q0) == Some(q1);
        assert(f1(q0) == Some(q));
    }
    assert(lhs =~= rhs);
}

/// A finite set leads to finitely many `Post` states.
pub proof fn lemma_posts_after_finite<X, A: ThreeFA<X>>(
    a: &A,
    set: Set<<A::Post as Finite>::Model>,
    rest: Seq<X>,
)
    requires
        set.finite(),
    ensures
        posts_after(a, set, rest).finite(),
{
    lemma_image_finite(set, |q: <A::Post as Finite>::Model| post_run(a, Some(q), rest));
}

/// The `Active` state at the end of `w` of the match that begins at position `i`.
pub open spec fn begun<X, A: ThreeFA<X>>(a: &A, w: Seq<X>, i: int) -> Option<
    <A::Active as Finite>::Model,
> {
    active_run(a, opt_entered(a, pre_run(a, w.take(i))), w.skip(i))
}

/// The `Post` state at the end of `w` of the match between the positions `i` and `j`.
pub open spec fn ended<X, A: ThreeFA<X>>(a: &A, w: Seq<X>, i: int, j: int) -> Option<
    <A::Post as Finite>::Model,
> {
    post_run(a, opt_exited(a, begun(a, w.take(j), i)), w.skip(j))
}

/// Whether `a` matches `w` between the positions `i` and `j`.
pub open spec fn spans<X, A: ThreeFA<X>>(a: &A, w: Seq<X>, i: int, j: int) -> bool {
    0 <= i <= j <= w.len() && opt_post_accepting(a, ended(a, w, i, j))
}

/// Whether `a` matches `w` between some two positions.
pub open spec fn matches_somewhere<X, A: ThreeFA<X>>(a: &A, w: Seq<X>) -> bool {
    exists|i: int, j: int| #[trigger] spans(a, w, i, j)
}

/// The `Active` states at the end of `w` of the matches that have begun.
pub open spec fn begun_set<X, A: ThreeFA<X>>(a: &A, w: Seq<X>) -> Set<<A::Active as Finite>::Model> {
    Set::new(
        |t: <A::Active as Finite>::Model|
            exists|i: int| 0 <= i <= w.len() && #[trigger] begun(a, w, i) == Some(t),
    )
}

/// The `Post` states at the end of `w` of the matches that have ended.
pub open spec fn ended_set<X, A: ThreeFA<X>>(a: &A, w: Seq<X>) -> Set<<A::Post as Finite>::Model> {
    Set::new(
        |q: <A::Post as Finite>::Model|
            exists|i: int, j: int| 0 <= i <= j <= w.len() && #[trigger] ended(a, w, i, j) == Some(q),
    )
}

/// How the match that begins at position `i` goes on with one more symbol.
pub proof fn lemma_begun_push<X, A: ThreeFA<X>>(a: &A, u: Seq<X>, c: X, i: int)
    requires
        0 <= i <= u.len() + 1,
    ensures
        begun(a, u.push(c), i) == if i <= u.len() {
            opt_active_step(a, begun(a, u, i), c)
        } else {
            opt_entered(a, pre_run(a, u.push(c)))
        },
{
    let w = u.push(c);
    if i <= u.len() {
        assert(w.take(i) =~= u.take(i));
        assert(w.skip(i) =~= u.skip(i).push(c));
        assert(w.skip(i).drop_last() =~= u.skip(i));
    } else {
        assert(w.take(i) =~= w);
        assert(w.skip(i) =~= Seq::<X>::empty());
    }
}

/// How the match between the positions `i` and `j` goes on with one more symbol.
pub proof fn lemma_ended_push<X, A: ThreeFA<X>>(a: &A, u: Seq<X>, c: X, i: int, j: int)
    requires
        0 <= i <= j <= u.len() + 1,
    ensures
        ended(a, u.push(c), i, j) == if j <= u.len() {
            opt_post_step(a, ended(a, u, i, j), c)
        } else {
            opt_exited(a, begun(a, u.push(c), i))
        },
{
    let w = u.push(c);
    if j <= u.len() {
        assert(w.take(j) =~= u.take(j));
        assert(w.skip(j) =~= u.skip(j).push(c));
        assert(w.skip(j).drop_last() =~= u.skip(j));
    } else {
        assert(w.take(j) =~= w);
        assert(w.skip(j) =~= Seq::<X>::empty());
    }
}

/// How the matches that have begun change with one more symbol.
pub proof fn lemma_begun_set_push<X, A: ThreeFA<X>>(a: &A, u: Seq<X>, c: X)
    ensures
        begun_set(a, u.push(c)) == to_dfa_active(a, pre_run(a, u.push(c)), begun_set(a, u), c),
{
    let w = u.push(c);
    let lhs = begun_set(a, w);
    let f = |s: <A::Active as Finite>::Model| a.active_step(s, c);
    let moved = image(begun_set(a, u), f);
    let rhs = to_dfa_active(a, pre_run(a, w), begun_set(a, u), c);
    assert(rhs == moved.union(option_set(opt_entered(a, pre_run(a, w)))));
    assert forall|t: <A::Active as Finite>::Model| lhs.contains(t) implies rhs.contains(t) by {
        let i = choose|i: int| 0 <= i <= w.len() && #[trigger] begun(a, w, i) == Some(t);
        lemma_begun_push(a, u, c, i);
        if i <= u.len() {
            let t0 = begun(a, u, i).unwrap();
            assert(begun_set(a, u).contains(t0));
            assert(f(t0) == Some(t));
        }
    }
    assert forall|t: <A::Active as Finite>::Model| rhs.contains(t) implies lhs.contains(t) by {
        if moved.contains(t) {
            let t0 = choose|t0: <A::Active as Finite>::Model|
                begun_set(a, u).contains(t0) && #[trigger] f(t0) == Some(t);
            let i = choose|i: int| 0 <= i <= u.len() && #[trigger] begun(a, u, i) == Some(t0);
            lemma_begun_push(a, u, c, i);
            assert(begun(a, w, i) == Some(t));
        } else {
            let i = w.len() as int;
            lemma_begun_push(a, u, c, i);
            assert(begun(a, w, i) == Some(t));
        }
    }
    assert(lhs =~= rhs);
}

/// The matches that have begun at the beginning of the input.
pub proof fn lemma_begun_set_empty<X, A: ThreeFA<X>>(a: &A, w: Seq<X>)
    requires
        w.len() == 0,
    ensures
        begun_set(a, w) == option_set(a.entered(a.pre_start())),
{
    let entered = a.entered(a.pre_start());
    assert forall|t: <A::Active as Finite>::Model| begun_set(a, w).contains(t) <==> option_set(
        entered,
    ).contains(t) by {
        assert(w.take(0) =~= w);
        assert(w.skip(0) =~= w);
        if begun_set(a, w).contains(t) {
            let i = choose|i: int| 0 <= i <= w.len() && #[trigger] begun(a, w, i) == Some(t);
        }
        if option_set(entered).contains(t) {
            assert(begun(a, w, 0) == Some(t));
        }
    }
    assert(begun_set(a, w) =~= option_set(entered));
}

/// Only finitely many matches have begun.
pub proof fn lemma_begun_set_finite<X, A: ThreeFA<X>>(a: &A, w: Seq<X>)
    ensures
        begun_set(a, w).finite(),
    decreases w.len(),
{
    if w.len() == 0 {
        lemma_begun_set_empty(a, w);
    } else {
        let u = w.drop_last();
        let c = w.last();
        assert(w =~= u.push(c));
        lemma_begun_set_finite(a, u);
        lemma_begun_set_push(a, u, c);
        lemma_image_finite(begun_set(a, u), |s: <A::Active as Finite>::Model| a.active_step(s, c));
    }
}

/// How the matches that have ended change with one more symbol.
pub proof fn lemma_ended_set_push<X, A: ThreeFA<X>>(a: &A, u: Seq<X>, c: X)
    ensures
        ended_set(a, u.push(c)) == to_dfa_post(a, begun_set(a, u.push(c)), ended_set(a, u), c),
{
    let w = u.push(c);
    let lhs = ended_set(a, w);
    let f = |s: <A::Post as Finite>::Model| a.post_step(s, c);
    let g = |s: <A::Active as Finite>::Model| a.exited(s);
    let moved = image(ended_set(a, u), f);
    let out = image(begun_set(a, w), g);
    let rhs = to_dfa_post(a, begun_set(a, w), ended_set(a, u), c);
    assert(rhs == moved.union(out));
    assert forall|q: <A::Post as Finite>::Model| lhs.contains(q) implies rhs.contains(q) by {
        let (i, j) = choose|i: int, j: int|
            0 <= i <= j <= w.len() && #[trigger] ended(a, w, i, j) == Some(q);
        lemma_ended_push(a, u, c, i, j);
        if j <= u.len() {
            let q0 = ended(a, u, i, j).unwrap();
            assert(ended_set(a, u).contains(q0));
            assert(f(q0) == Some(q));
        } else {
            let t = begun(a, w, i).unwrap();
            assert(begun_set(a, w).contains(t));
            assert(g(t) == Some(q));
        }
    }
    assert forall|q: <A::Post as Finite>::Model| rhs.contains(q) implies lhs.contains(q) by {
        if moved.contains(q) {
            let q0 = choose|q0: <A::Post as Finite>::Model|
                ended_set(a, u).contains(q0) && #[trigger] f(q0) == Some(q);
            let (i, j) = choose|i: int, j: int|
                0 <= i <= j <= u.len() && #[trigger] ended(a, u, i, j) == Some(q0);
            lemma_ended_push(a, u, c, i, j);
            assert(ended(a, w, i, j) == Some(q));
        } else {
            let t = choose|t: <A::Active as Finite>::Model|
                begun_set(a, w).contains(t) && #[trigger] g(t) == Some(q);
            let i = choose|i: int| 0 <= i <= w.len() && #[trigger] begun(a, w, i) == Some(t);
            let j = w.len() as int;
            lemma_ended_push(a, u, c, i, j);
            assert(ended(a, w, i, j) == Some(q));
        }
    }
    assert(lhs =~= rhs);
}

/// The state of the deterministic automaton after `w`: the `Pre` state, the
/// matches that have begun and the matches that have ended. The run is gone
/// once nothing is left in any phase.
pub proof fn lemma_to_dfa_run<X: Copy, A: ThreeFA<X>>(d: &ToDfa<A>, w: Seq<X>)
    ensures
        begun_set(&d.0, w).finite(),
        ended_set(&d.0, w).finite(),
        run(d, w) == if pre_run(&d.0, w) is Some || begun_set(&d.0, w) != Set::<
            <A::Active as Finite>::Model,
        >::empty() || ended_set(&d.0, w) != Set::<<A::Post as Finite>::Model>::empty() {
            Some(
                (
                    pre_run(&d.0, w),
                    canon::<A::Active>(begun_set(&d.0, w)),
                    canon::<A::Post>(ended_set(&d.0, w)),
                ),
            )
        } else {
            None
        },
    decreases w.len(),
{
    let a = &d.0;
    if w.len() == 0 {
        let entered = a.entered(a.pre_start());
        lemma_begun_set_empty(a, w);
        assert forall|q: <A::Post as Finite>::Model| ended_set(a, w).contains(q) <==> option_set(
            opt_exited(a, entered),
        ).contains(q) by {
            assert(w.take(0) =~= w);
            assert(w.skip(0) =~= w);
            if ended_set(a, w).contains(q) {
                let (i, j) = choose|i: int, j: int|
                    0 <= i <= j <= w.len() && #[trigger] ended(a, w, i, j) == Some(q);
            }
            if option_set(opt_exited(a, entered)).contains(q) {
                assert(ended(a, w, 0, 0) == Some(q));
            }
        }
        assert(ended_set(a, w) =~= option_set(opt_exited(a, entered)));
    } else {
        let u = w.drop_last();
        let c = w.last();
        assert(w =~= u.push(c));
        lemma_to_dfa_run(d, u);
        lemma_begun_set_push(a, u, c);
        lemma_ended_set_push(a, u, c);
        lemma_image_finite(begun_set(a, u), |s: <A::Active as Finite>::Model| a.active_step(s, c));
        lemma_image_finite(ended_set(a, u), |s: <A::Post as Finite>::Model| a.post_step(s, c));
        lemma_image_finite(begun_set(a, w), |s: <A::Active as Finite>::Model| a.exited(s));
        lemma_canon::<A::Active>(begun_set(a, u));
        lemma_canon::<A::Post>(ended_set(a, u));
        if run(d, u) is None {
            assert(active_moves(a, begun_set(a, u), c) =~= Set::empty());
            assert(post_moves(a, ended_set(a, u), c) =~= Set::empty());
            assert(begun_set(a, w) =~= Set::empty());
            assert(exits(a, begun_set(a, w)) =~= Set::empty());
            assert(ended_set(a, w) =~= Set::empty());
        }
    }
}

/// `ToDfa(A)` accepts exactly the inputs that `A` matches between some two
/// positions.
pub proof fn lemma_to_dfa_language<X: Copy, A: ThreeFA<X>>(d: &ToDfa<A>, w: Seq<X>)
    ensures
        accepts(d, w) == matches_somewhere(&d.0, w),
{
    let a = &d.0;
    lemma_to_dfa_run(d, w);
    lemma_canon::<A::Post>(ended_set(a, w));
    if accepts(d, w) {
        let q = choose|q: <A::Post as Finite>::Model|
            ended_set(a, w).contains(q) && #[trigger] a.post_accepting(q);
        let (i, j) = choose|i: int, j: int|
            0 <= i <= j <= w.len() && #[trigger] ended(a, w, i, j) == Some(q);
        assert(spans(a, w, i, j));
    }
    if matches_somewhere(a, w) {
        let (i, j) = choose|i: int, j: int| #[trigger] spans(a, w, i, j);
        let q = ended(a, w, i, j).unwrap();
        assert(ended_set(a, w).contains(q));
        assert(a.post_accepting(q));
        assert(any_post_accepting(a, ended_set(a, w)));
    }
}

} // verus!
