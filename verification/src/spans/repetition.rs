//! What a repetition of a three-phase automaton matches: one or more stretches
//! in a row, each of which the operand matches.
use vstd::prelude::*;
use crate::finite::Finite;
use crate::ordset::OrdSet;
use crate::regex::Plus;
use crate::sorted::{
    canon,
    image,
    lemma_canon,
    lemma_canon_of_sorted,
    lemma_image_empty,
    lemma_image_finite,
    lemma_image_insert,
};
use crate::spans::{
    pre_run,
    post_run,
    begun,
    ended,
    spans,
    set_state,
    posts_after,
    lemma_begun_push,
    lemma_ended_push,
    lemma_ended_later,
    lemma_active_run_gone,
    lemma_post_run_gone,
    lemma_canon_single,
    lemma_posts_after_push,
    lemma_posts_after_finite,
};
use crate::threefa::{
    ThreeFA,
    option_set,
    opt_pre_step,
    opt_entered,
    opt_exited,
    opt_post_accepting,
    post_moves,
};
use crate::threefa::plus::{
    trace_step,
    plus_move,
    plus_close,
    plus_again,
    plus_moves,
    plus_agains,
    plus_post_moves,
    plus_exits,
    trace_accepting,
    plus_any_accepting,
};

verus! {

/// Whether `a` matches one or more stretches in a row that lead from position
/// `i` to position `j`: the stretch between them, or stretches that lead from
/// `i` to a position in between and the stretch from there to `j`.
pub open spec fn repeats_at<X, A: ThreeFA<X>>(a: &A, w: Seq<X>, i: int, j: int) -> bool
    decreases j - i,
{
    spans(a, w, i, j) || exists|k: int|
        i < k < j && repeats_at(a, w, i, k) && #[trigger] spans(a, w, k, j)
}

/// Whether `trace` holds the `Post` states, at the end of `v`, of stretches in
/// a row that lead from position `i` to position `k`, each of them not empty.
pub open spec fn reaches<X, A: ThreeFA<X>>(
    a: &A,
    v: Seq<X>,
    i: int,
    k: int,
    trace: Set<<A::Post as Finite>::Model>,
) -> bool
    decreases k - i,
{
    (k == i && trace == Set::<<A::Post as Finite>::Model>::empty()) || exists|
        m: int,
        before: Set<<A::Post as Finite>::Model>,
    |
        i <= m < k && reaches(a, v, i, m, before) && ended(a, v, m, k) is Some && trace
            == #[trigger] before.insert(ended(a, v, m, k).unwrap())
}

/// Whether each state of `trace` has a step on `c`.
pub open spec fn all_step<X, A: ThreeFA<X>>(
    a: &A,
    trace: Set<<A::Post as Finite>::Model>,
    c: X,
) -> bool {
    forall|p: <A::Post as Finite>::Model| trace.contains(p) ==> (#[trigger] a.post_step(p, c)) is Some
}

/// Stretches in a row have finitely many `Post` states.
pub proof fn lemma_reaches_finite<X, A: ThreeFA<X>>(
    a: &A,
    v: Seq<X>,
    i: int,
    k: int,
    trace: Set<<A::Post as Finite>::Model>,
)
    requires
        reaches(a, v, i, k, trace),
    ensures
        trace.finite(),
        i <= k,
    decreases k - i,
{
    if !(k == i && trace == Set::<<A::Post as Finite>::Model>::empty()) {
        let (m, before) = choose|m: int, before: Set<<A::Post as Finite>::Model>|
            i <= m < k && reaches(a, v, i, m, before) && ended(a, v, m, k) is Some && trace
                == #[trigger] before.insert(ended(a, v, m, k).unwrap());
        lemma_reaches_finite(a, v, i, m, before);
    }
}

/// With one more symbol, stretches that led to `k` still lead there if each
/// of their `Post` states has a step; the states are then those after the step.
proof fn lemma_reaches_forward<X, A: ThreeFA<X>>(
    a: &A,
    v: Seq<X>,
    c: X,
    i: int,
    k: int,
    trace: Set<<A::Post as Finite>::Model>,
)
    requires
        0 <= i,
        k <= v.len(),
        reaches(a, v, i, k, trace),
        all_step(a, trace, c),
    ensures
        reaches(a, v.push(c), i, k, post_moves(a, trace, c)),
    decreases k - i,
{
    let f = |s: <A::Post as Finite>::Model| a.post_step(s, c);
    if k == i && trace == Set::<<A::Post as Finite>::Model>::empty() {
        lemma_image_empty(f);
    } else {
        let (m, before) = choose|m: int, before: Set<<A::Post as Finite>::Model>|
            i <= m < k && reaches(a, v, i, m, before) && ended(a, v, m, k) is Some && trace
                == #[trigger] before.insert(ended(a, v, m, k).unwrap());
        let p = ended(a, v, m, k).unwrap();
        assert(trace.contains(p));
        assert forall|q: <A::Post as Finite>::Model| before.contains(q) implies (
        #[trigger] a.post_step(q, c)) is Some by {
            assert(trace.contains(q));
        }
        lemma_reaches_forward(a, v, c, i, m, before);
        lemma_ended_push(a, v, c, m, k);
        lemma_image_insert(before, f, p);
        assert(reaches(a, v.push(c), i, m, post_moves(a, before, c)));
    }
}

/// With one more symbol, stretches that lead to `k` led there before; each of
/// their `Post` states came by a step.
proof fn lemma_reaches_back<X, A: ThreeFA<X>>(
    a: &A,
    v: Seq<X>,
    c: X,
    i: int,
    k: int,
    trace: Set<<A::Post as Finite>::Model>,
) -> (before: Set<<A::Post as Finite>::Model>)
    requires
        0 <= i,
        k <= v.len(),
        reaches(a, v.push(c), i, k, trace),
    ensures
        reaches(a, v, i, k, before),
        all_step(a, before, c),
        trace == post_moves(a, before, c),
    decreases k - i,
{
    let f = |s: <A::Post as Finite>::Model| a.post_step(s, c);
    let vc = v.push(c);
    if k == i && trace == Set::<<A::Post as Finite>::Model>::empty() {
        lemma_image_empty(f);
        Set::empty()
    } else {
        let (m, first) = choose|m: int, first: Set<<A::Post as Finite>::Model>|
            i <= m < k && reaches(a, vc, i, m, first) && ended(a, vc, m, k) is Some && trace
                == #[trigger] first.insert(ended(a, vc, m, k).unwrap());
        let first0 = lemma_reaches_back(a, v, c, i, m, first);
        lemma_ended_push(a, v, c, m, k);
        let p = ended(a, v, m, k).unwrap();
        lemma_image_insert(first0, f, p);
        assert(reaches(a, v, i, m, first0));
        first0.insert(p)
    }
}

/// The trace and the `Active` state, at the end of `v`, for stretches in a
/// row that lead from `i` to `k` with the `Post` states `trace`, and a
/// stretch under way from `k`.
pub open spec fn trace_for<X, A: ThreeFA<X>>(
    a: &A,
    v: Seq<X>,
    i: int,
    k: int,
    trace: Set<<A::Post as Finite>::Model>,
) -> Option<(Seq<<A::Post as Finite>::Model>, <A::Active as Finite>::Model)> {
    if reaches(a, v, i, k, trace) {
        match begun(a, v, k) {
            Some(t) => Some((canon::<A::Post>(trace), t)),
            None => None,
        }
    } else {
        None
    }
}

/// The traces, at the end of `v`, of a repetition that began at `i`.
pub open spec fn traces_at<X, A: ThreeFA<X>>(a: &A, v: Seq<X>, i: int) -> Set<
    (Seq<<A::Post as Finite>::Model>, <A::Active as Finite>::Model),
> {
    Set::new(
        |e: (Seq<<A::Post as Finite>::Model>, <A::Active as Finite>::Model)|
            exists|k: int, trace: Set<<A::Post as Finite>::Model>|
                i <= k <= v.len() && #[trigger] trace_for(a, v, i, k, trace) == Some(e),
    )
}

/// A trace steps if each of its states does.
proof fn lemma_trace_step<X, A: ThreeFA<X>>(a: &A, trace: Set<<A::Post as Finite>::Model>, c: X)
    requires
        trace.finite(),
    ensures
        trace_step(a, canon::<A::Post>(trace), c) == if all_step(a, trace, c) {
            Some(canon::<A::Post>(post_moves(a, trace, c)))
        } else {
            None
        },
{
    lemma_canon::<A::Post>(trace);
}

/// The `Post` state of a stretch that ends with the input is the exit of its
/// `Active` state.
proof fn lemma_ended_now<X, A: ThreeFA<X>>(a: &A, v: Seq<X>, k: int)
    requires
        0 <= k <= v.len(),
    ensures
        ended(a, v, k, v.len() as int) == opt_exited(a, begun(a, v, k)),
{
    assert(v.take(v.len() as int) =~= v);
    assert(v.skip(v.len() as int) =~= Seq::<X>::empty());
}

/// How the traces change with one more symbol.
proof fn lemma_traces_push<X, A: ThreeFA<X>>(a: &A, v: Seq<X>, c: X, i: int)
    requires
        0 <= i <= v.len(),
    ensures
        traces_at(a, v.push(c), i) == plus_moves(a, traces_at(a, v, i), c).union(
            plus_agains(a, pre_run(a, v.push(c)), plus_moves(a, traces_at(a, v, i), c)),
        ),
{
    let vc = v.push(c);
    let lhs = traces_at(a, vc, i);
    let f = |e: (Seq<<A::Post as Finite>::Model>, <A::Active as Finite>::Model)|
        plus_move(a, e, c);
    let g = |e: (Seq<<A::Post as Finite>::Model>, <A::Active as Finite>::Model)|
        plus_again(a, pre_run(a, vc), e);
    let moved = image(traces_at(a, v, i), f);
    let again = image(moved, g);
    let rhs = plus_moves(a, traces_at(a, v, i), c).union(
        plus_agains(a, pre_run(a, vc), plus_moves(a, traces_at(a, v, i), c)),
    );
    assert(rhs == moved.union(again));
    let now = vc.len() as int;
    // each trace that reaches a position within `v` comes by a move
    assert forall|k: int, trace: Set<<A::Post as Finite>::Model>|
        i <= k <= v.len() && (#[trigger] trace_for(a, vc, i, k, trace)) is Some implies moved.contains(
        trace_for(a, vc, i, k, trace).unwrap(),
    ) by {
        let before = lemma_reaches_back(a, v, c, i, k, trace);
        lemma_reaches_finite(a, v, i, k, before);
        lemma_trace_step(a, before, c);
        lemma_begun_push(a, v, c, k);
        let t = begun(a, v, k).unwrap();
        let e0 = (canon::<A::Post>(before), t);
        assert(trace_for(a, v, i, k, before) == Some(e0));
        assert(traces_at(a, v, i).contains(e0));
        assert(f(e0) == trace_for(a, vc, i, k, trace));
    }
    assert forall|e: (Seq<<A::Post as Finite>::Model>, <A::Active as Finite>::Model)|
        lhs.contains(e) implies rhs.contains(e) by {
        let (k, trace) = choose|k: int, trace: Set<<A::Post as Finite>::Model>|
            i <= k <= vc.len() && #[trigger] trace_for(a, vc, i, k, trace) == Some(e);
        if k <= v.len() {
            assert(moved.contains(trace_for(a, vc, i, k, trace).unwrap()));
        } else {
            let (m, first) = choose|m: int, first: Set<<A::Post as Finite>::Model>|
                i <= m < k && reaches(a, vc, i, m, first) && ended(a, vc, m, k) is Some && trace
                    == #[trigger] first.insert(ended(a, vc, m, k).unwrap());
            lemma_ended_now(a, vc, m);
            lemma_begun_push(a, v, c, now);
            lemma_reaches_finite(a, vc, i, m, first);
            lemma_canon::<A::Post>(first);
            let t = begun(a, vc, m).unwrap();
            let e1 = (canon::<A::Post>(first), t);
            assert(trace_for(a, vc, i, m, first) == Some(e1));
            assert(moved.contains(e1));
            assert(g(e1) == Some(e));
        }
    }
    assert forall|e: (Seq<<A::Post as Finite>::Model>, <A::Active as Finite>::Model)|
        rhs.contains(e) implies lhs.contains(e) by {
        if moved.contains(e) {
            let e0 = choose|e0: (Seq<<A::Post as Finite>::Model>, <A::Active as Finite>::Model)|
                traces_at(a, v, i).contains(e0) && #[trigger] f(e0) == Some(e);
            let (k, before) = choose|k: int, before: Set<<A::Post as Finite>::Model>|
                i <= k <= v.len() && #[trigger] trace_for(a, v, i, k, before) == Some(e0);
            lemma_reaches_finite(a, v, i, k, before);
            lemma_trace_step(a, before, c);
            lemma_reaches_forward(a, v, c, i, k, before);
            lemma_begun_push(a, v, c, k);
            assert(trace_for(a, vc, i, k, post_moves(a, before, c)) == Some(e));
        } else {
            let e1 = choose|e1: (Seq<<A::Post as Finite>::Model>, <A::Active as Finite>::Model)|
                moved.contains(e1) && #[trigger] g(e1) == Some(e);
            let e0 = choose|e0: (Seq<<A::Post as Finite>::Model>, <A::Active as Finite>::Model)|
                traces_at(a, v, i).contains(e0) && #[trigger] f(e0) == Some(e1);
            let (k, before) = choose|k: int, before: Set<<A::Post as Finite>::Model>|
                i <= k <= v.len() && #[trigger] trace_for(a, v, i, k, before) == Some(e0);
            lemma_reaches_finite(a, v, i, k, before);
            lemma_trace_step(a, before, c);
            lemma_reaches_forward(a, v, c, i, k, before);
            lemma_begun_push(a, v, c, k);
            let first = post_moves(a, before, c);
            lemma_image_finite(before, |s: <A::Post as Finite>::Model| a.post_step(s, c));
            lemma_canon::<A::Post>(first);
            lemma_ended_now(a, vc, k);
            lemma_begun_push(a, v, c, now);
            let x = ended(a, vc, k, now).unwrap();
            assert(reaches(a, vc, i, now, first.insert(x)));
            assert(trace_for(a, vc, i, now, first.insert(x)) == Some(e));
        }
    }
    assert(lhs =~= rhs);
}

/// Stretches in a row that lead on from `i` begin with a stretch from `i`.
proof fn lemma_reaches_first<X, A: ThreeFA<X>>(
    a: &A,
    v: Seq<X>,
    i: int,
    k: int,
    trace: Set<<A::Post as Finite>::Model>,
) -> (m: int)
    requires
        reaches(a, v, i, k, trace),
        i < k,
    ensures
        i < m <= k,
        ended(a, v, i, m) is Some,
    decreases k - i,
{
    let (m, before) = choose|m: int, before: Set<<A::Post as Finite>::Model>|
        i <= m < k && reaches(a, v, i, m, before) && ended(a, v, m, k) is Some && trace
            == #[trigger] before.insert(ended(a, v, m, k).unwrap());
    if m == i {
        k
    } else {
        lemma_reaches_first(a, v, i, m, before)
    }
}

/// Where the first stretch cannot begin, there are no traces.
proof fn lemma_no_entry<X, A: ThreeFA<X>>(a: &A, v: Seq<X>, i: int)
    requires
        0 <= i <= v.len(),
        opt_entered(a, pre_run(a, v.take(i))) is None,
    ensures
        traces_at(a, v, i) == Set::<
            (Seq<<A::Post as Finite>::Model>, <A::Active as Finite>::Model),
        >::empty(),
{
    assert forall|e: (Seq<<A::Post as Finite>::Model>, <A::Active as Finite>::Model)|
        !traces_at(a, v, i).contains(e) by {
        if traces_at(a, v, i).contains(e) {
            let (k, trace) = choose|k: int, trace: Set<<A::Post as Finite>::Model>|
                i <= k <= v.len() && #[trigger] trace_for(a, v, i, k, trace) == Some(e);
            if k == i {
                lemma_active_run_gone(a, v.skip(i));
            } else {
                let m = lemma_reaches_first(a, v, i, k, trace);
                assert(v.take(m).take(i) =~= v.take(i));
                lemma_active_run_gone(a, v.take(m).skip(i));
                lemma_post_run_gone(a, v.skip(m));
            }
        }
    }
    assert(traces_at(a, v, i) =~= Set::empty());
}

/// The state of a repetition that began at `i`, at the end of `v`: the `Pre`
/// state and the traces. It is gone if the first stretch could not begin, or
/// once nothing is left.
proof fn lemma_plus_begun<X: Copy, A: ThreeFA<X>>(l: &Plus<A>, v: Seq<X>, i: int)
    requires
        0 <= i <= v.len(),
    ensures
        traces_at(&l.0, v, i).finite(),
        begun(l, v, i) == if opt_entered(&l.0, pre_run(&l.0, v.take(i))) is Some && (pre_run(
            &l.0,
            v,
        ) is Some || traces_at(&l.0, v, i) != Set::<
            (Seq<<A::Post as Finite>::Model>, <A::Active as Finite>::Model),
        >::empty()) {
            Some(
                (
                    pre_run(&l.0, v),
                    canon::<(OrdSet<A::Post>, A::Active)>(traces_at(&l.0, v, i)),
                ),
            )
        } else {
            None
        },
    decreases v.len() - i,
{
    let a = &l.0;
    if v.len() == i {
        assert(v.take(i) =~= v);
        assert(v.skip(i) =~= Seq::<X>::empty());
        lemma_plus_pre_run(l, v);
        let none = Set::<<A::Post as Finite>::Model>::empty();
        let blank = Seq::<<A::Post as Finite>::Model>::empty();
        assert(blank.to_set() =~= none);
        lemma_canon_of_sorted::<A::Post>(blank);
        let first = trace_for(a, v, i, i, none);
        assert(reaches(a, v, i, i, none));
        assert forall|e: (Seq<<A::Post as Finite>::Model>, <A::Active as Finite>::Model)|
            traces_at(a, v, i).contains(e) <==> option_set(first).contains(e) by {
            if traces_at(a, v, i).contains(e) {
                let (k, trace) = choose|k: int, trace: Set<<A::Post as Finite>::Model>|
                    i <= k <= v.len() && #[trigger] trace_for(a, v, i, k, trace) == Some(e);
                assert(trace == none);
            }
            if option_set(first).contains(e) {
                assert(trace_for(a, v, i, i, none) == Some(e));
            }
        }
        assert(traces_at(a, v, i) =~= option_set(first));
        if first is Some {
            lemma_canon_single::<(OrdSet<A::Post>, A::Active)>(first.unwrap());
            assert(option_set(first).contains(first.unwrap()));
        }
    } else {
        let u = v.drop_last();
        let ch = v.last();
        assert(v =~= u.push(ch));
        assert(v.take(i) =~= u.take(i));
        lemma_plus_begun(l, u, i);
        lemma_begun_push(l, u, ch, i);
        lemma_traces_push(a, u, ch, i);
        let f = |e: (Seq<<A::Post as Finite>::Model>, <A::Active as Finite>::Model)|
            plus_move(a, e, ch);
        let g = |e: (Seq<<A::Post as Finite>::Model>, <A::Active as Finite>::Model)|
            plus_again(a, pre_run(a, v), e);
        lemma_image_finite(traces_at(a, u, i), f);
        lemma_image_finite(image(traces_at(a, u, i), f), g);
        lemma_canon::<(OrdSet<A::Post>, A::Active)>(traces_at(a, u, i));
        assert(pre_run(a, v) == opt_pre_step(a, pre_run(a, u), ch));
        if opt_entered(a, pre_run(a, u.take(i))) is None {
            lemma_no_entry(a, u, i);
            lemma_no_entry(a, v, i);
        }
        if begun(l, u, i) is None {
            assert(plus_moves(a, traces_at(a, u, i), ch) =~= Set::empty());
            assert(plus_agains(a, pre_run(a, v), plus_moves(a, traces_at(a, u, i), ch))
                =~= Set::empty());
            assert(traces_at(a, v, i) =~= Set::empty());
        }
    }
}

proof fn lemma_plus_pre_run<X: Copy, A: ThreeFA<X>>(l: &Plus<A>, w: Seq<X>)
    ensures
        pre_run(l, w) == pre_run(&l.0, w),
    decreases w.len(),
{
    if w.len() > 0 {
        lemma_plus_pre_run(l, w.drop_last());
    }
}

/// The trace that `trace` leads to by reading `rest`, if each of its states
/// has all the steps.
pub open spec fn trace_run<X, A: ThreeFA<X>>(
    a: &A,
    trace: Seq<<A::Post as Finite>::Model>,
    rest: Seq<X>,
) -> Option<Seq<<A::Post as Finite>::Model>>
    decreases rest.len(),
{
    if rest.len() == 0 {
        Some(trace)
    } else {
        match trace_run(a, trace, rest.drop_last()) {
            Some(t) => trace_step(a, t, rest.last()),
            None => None,
        }
    }
}

/// The traces that those in `set` lead to by reading `rest`.
pub open spec fn traces_after<X, A: ThreeFA<X>>(
    a: &A,
    set: Set<Seq<<A::Post as Finite>::Model>>,
    rest: Seq<X>,
) -> Set<Seq<<A::Post as Finite>::Model>> {
    image(set, |t: Seq<<A::Post as Finite>::Model>| trace_run(a, t, rest))
}

/// Whether each state of `trace` can read `rest`.
pub open spec fn all_run<X, A: ThreeFA<X>>(
    a: &A,
    trace: Set<<A::Post as Finite>::Model>,
    rest: Seq<X>,
) -> bool {
    forall|p: <A::Post as Finite>::Model|
        trace.contains(p) ==> (#[trigger] post_run(a, Some(p), rest)) is Some
}

/// A trace reads on if each of its states does.
proof fn lemma_trace_run<X, A: ThreeFA<X>>(
    a: &A,
    trace: Set<<A::Post as Finite>::Model>,
    rest: Seq<X>,
)
    requires
        trace.finite(),
    ensures
        trace_run(a, canon::<A::Post>(trace), rest) == if all_run(a, trace, rest) {
            Some(canon::<A::Post>(posts_after(a, trace, rest)))
        } else {
            None
        },
    decreases rest.len(),
{
    let f = |q: <A::Post as Finite>::Model| post_run(a, Some(q), rest);
    if rest.len() == 0 {
        assert forall|q: <A::Post as Finite>::Model| trace.contains(q) <==> posts_after(
            a,
            trace,
            rest,
        ).contains(q) by {
            if trace.contains(q) {
                assert(f(q) == Some(q));
            }
            if posts_after(a, trace, rest).contains(q) {
                let q0 = choose|q0: <A::Post as Finite>::Model|
                    trace.contains(q0) && #[trigger] f(q0) == Some(q);
            }
        }
        assert(posts_after(a, trace, rest) =~= trace);
    } else {
        let r = rest.drop_last();
        let c = rest.last();
        assert(rest =~= r.push(c));
        let f0 = |q: <A::Post as Finite>::Model| post_run(a, Some(q), r);
        lemma_trace_run(a, trace, r);
        lemma_posts_after_push(a, trace, r, c);
        lemma_posts_after_finite(a, trace, r);
        let mid = posts_after(a, trace, r);
        lemma_trace_step(a, mid, c);
        if all_run(a, trace, r) {
            if all_run(a, trace, rest) {
                assert forall|p: <A::Post as Finite>::Model| mid.contains(p) implies (
                #[trigger] a.post_step(p, c)) is Some by {
                    let q0 = choose|q0: <A::Post as Finite>::Model|
                        trace.contains(q0) && #[trigger] f0(q0) == Some(p);
                    assert(post_run(a, Some(q0), rest) is Some);
                }
            }
            if all_step(a, mid, c) {
                assert forall|q: <A::Post as Finite>::Model| trace.contains(q) implies (
                #[trigger] post_run(a, Some(q), rest)) is Some by {
                    assert(post_run(a, Some(q), r) is Some);
                    let p = post_run(a, Some(q), r).unwrap();
                    assert(f0(q) == Some(p));
                    assert(mid.contains(p));
                    assert(a.post_step(p, c) is Some);
                }
            }
        } else {
            let q = choose|q: <A::Post as Finite>::Model|
                trace.contains(q) && !((#[trigger] post_run(a, Some(q), r)) is Some);
            assert(post_run(a, Some(q), rest) is None);
        }
    }
}

proof fn lemma_traces_after_push<X, A: ThreeFA<X>>(
    a: &A,
    set: Set<Seq<<A::Post as Finite>::Model>>,
    r: Seq<X>,
    c: X,
)
    ensures
        traces_after(a, set, r.push(c)) == plus_post_moves(a, traces_after(a, set, r), c),
{
    let rest = r.push(c);
    let f0 = |t: Seq<<A::Post as Finite>::Model>| trace_run(a, t, r);
    let f1 = |t: Seq<<A::Post as Finite>::Model>| trace_run(a, t, rest);
    let g = |t: Seq<<A::Post as Finite>::Model>| trace_step(a, t, c);
    let lhs = traces_after(a, set, rest);
    let rhs = plus_post_moves(a, traces_after(a, set, r), c);
    assert(rest.drop_last() =~= r);
    assert forall|t: Seq<<A::Post as Finite>::Model>| lhs.contains(t) implies rhs.contains(t) by {
        let t0 = choose|t0: Seq<<A::Post as Finite>::Model>|
            set.contains(t0) && #[trigger] f1(t0) == Some(t);
        let t1 = trace_run(a, t0, r).unwrap();
        assert(f0(t0) == Some(t1));
        assert(traces_after(a, set, r).contains(t1));
        assert(g(t1) == Some(t));
    }
    assert forall|t: Seq<<A::Post as Finite>::Model>| rhs.contains(t) implies lhs.contains(t) by {
        let t1 = choose|t1: Seq<<A::Post as Finite>::Model>|
            traces_after(a, set, r).contains(t1) && #[trigger] g(t1) == Some(t);
        let t0 = choose|t0: Seq<<A::Post as Finite>::Model>|
            set.contains(t0) && #[trigger] f0(t0) == Some(t1);
        assert(f1(t0) == Some(t));
    }
    assert(lhs =~= rhs);
}

proof fn lemma_plus_post_run<X: Copy, A: ThreeFA<X>>(
    l: &Plus<A>,
    set: Set<Seq<<A::Post as Finite>::Model>>,
    rest: Seq<X>,
)
    requires
        set.finite(),
    ensures
        traces_after(&l.0, set, rest).finite(),
        post_run(l, set_state::<OrdSet<A::Post>>(set), rest) == set_state::<
            OrdSet<A::Post>,
        >(traces_after(&l.0, set, rest)),
    decreases rest.len(),
{
    let a = &l.0;
    lemma_image_finite(set, |t: Seq<<A::Post as Finite>::Model>| trace_run(a, t, rest));
    if rest.len() == 0 {
        let f = |t: Seq<<A::Post as Finite>::Model>| trace_run(a, t, rest);
        assert forall|t: Seq<<A::Post as Finite>::Model>| set.contains(t) <==> traces_after(
            a,
            set,
            rest,
        ).contains(t) by {
            if set.contains(t) {
                assert(f(t) == Some(t));
            }
            if traces_after(a, set, rest).contains(t) {
                let t0 = choose|t0: Seq<<A::Post as Finite>::Model>|
                    set.contains(t0) && #[trigger] f(t0) == Some(t);
            }
        }
        assert(traces_after(a, set, rest) =~= set);
    } else {
        let r = rest.drop_last();
        let c = rest.last();
        assert(rest =~= r.push(c));
        lemma_plus_post_run(l, set, r);
        lemma_traces_after_push(a, set, r, c);
        lemma_canon::<OrdSet<A::Post>>(traces_after(a, set, r));
        if traces_after(a, set, r) == Set::<Seq<<A::Post as Finite>::Model>>::empty() {
            assert(plus_post_moves(a, traces_after(a, set, r), c) =~= Set::empty());
        }
    }
}

/// Whether `a` matches stretches in a row, each of them not empty, that lead
/// from position `i` to position `k`.
pub open spec fn leads<X, A: ThreeFA<X>>(a: &A, w: Seq<X>, i: int, k: int) -> bool
    decreases k - i,
{
    k == i || exists|m: int| i <= m < k && leads(a, w, i, m) && #[trigger] spans(a, w, m, k)
}

proof fn lemma_leads_repeats<X, A: ThreeFA<X>>(a: &A, w: Seq<X>, i: int, k: int)
    requires
        leads(a, w, i, k),
        i < k,
    ensures
        repeats_at(a, w, i, k),
    decreases k - i,
{
    let m = choose|m: int| i <= m < k && leads(a, w, i, m) && #[trigger] spans(a, w, m, k);
    if m > i {
        lemma_leads_repeats(a, w, i, m);
    }
}

/// One or more stretches in a row are stretches that are not empty, followed
/// by a last stretch.
proof fn lemma_repeats_leads<X, A: ThreeFA<X>>(a: &A, w: Seq<X>, i: int, j: int)
    ensures
        repeats_at(a, w, i, j) == exists|k: int|
            i <= k <= j && leads(a, w, i, k) && #[trigger] spans(a, w, k, j),
    decreases j - i,
{
    if repeats_at(a, w, i, j) {
        if spans(a, w, i, j) {
            assert(leads(a, w, i, i));
        } else {
            let m = choose|m: int|
                i < m < j && repeats_at(a, w, i, m) && #[trigger] spans(a, w, m, j);
            lemma_repeats_leads(a, w, i, m);
            let k = choose|k: int|
                i <= k <= m && leads(a, w, i, k) && #[trigger] spans(a, w, k, m);
            if k < m {
                assert(leads(a, w, i, m));
            }
            assert(leads(a, w, i, m) && spans(a, w, m, j));
        }
    }
    if exists|k: int| i <= k <= j && leads(a, w, i, k) && #[trigger] spans(a, w, k, j) {
        let k = choose|k: int| i <= k <= j && leads(a, w, i, k) && #[trigger] spans(a, w, k, j);
        if k > i {
            lemma_leads_repeats(a, w, i, k);
            if k < j {
                assert(repeats_at(a, w, i, j));
            } else {
                assert(repeats_at(a, w, i, j));
            }
        }
    }
}

/// Stretches that the operand matches begin within the input.
proof fn lemma_leads_within<X, A: ThreeFA<X>>(a: &A, w: Seq<X>, i: int, k: int)
    requires
        leads(a, w, i, k),
        i < 0,
    ensures
        k == i,
    decreases k - i,
{
    if k != i {
        let m = choose|m: int| i <= m < k && leads(a, w, i, m) && #[trigger] spans(a, w, m, k);
        lemma_leads_within(a, w, i, m);
    }
}

/// Whether each state of `trace` reads `rest` and accepts.
pub open spec fn all_accepted<X, A: ThreeFA<X>>(
    a: &A,
    trace: Set<<A::Post as Finite>::Model>,
    rest: Seq<X>,
) -> bool {
    forall|p: <A::Post as Finite>::Model|
        trace.contains(p) ==> opt_post_accepting(a, #[trigger] post_run(a, Some(p), rest))
}

/// Stretches whose `Post` states read the rest of the input and accept are
/// stretches that the operand matches.
proof fn lemma_reaches_leads<X, A: ThreeFA<X>>(
    a: &A,
    w: Seq<X>,
    i: int,
    k: int,
    j: int,
    trace: Set<<A::Post as Finite>::Model>,
)
    requires
        0 <= i,
        k <= j <= w.len(),
        reaches(a, w.take(j), i, k, trace),
        all_accepted(a, trace, w.skip(j)),
    ensures
        leads(a, w, i, k),
    decreases k - i,
{
    let v = w.take(j);
    if !(k == i) {
        let (m, before) = choose|m: int, before: Set<<A::Post as Finite>::Model>|
            i <= m < k && reaches(a, v, i, m, before) && ended(a, v, m, k) is Some && trace
                == #[trigger] before.insert(ended(a, v, m, k).unwrap());
        let p = ended(a, v, m, k).unwrap();
        assert(trace.contains(p));
        lemma_ended_later(a, w, m, k, j);
        assert(opt_post_accepting(a, post_run(a, Some(p), w.skip(j))));
        assert(spans(a, w, m, k));
        assert forall|q: <A::Post as Finite>::Model| before.contains(q) implies opt_post_accepting(
            a,
            #[trigger] post_run(a, Some(q), w.skip(j)),
        ) by {
            assert(trace.contains(q));
        }
        lemma_reaches_leads(a, w, i, m, j, before);
    }
}

/// Stretches that the operand matches have `Post` states that read the rest
/// of the input and accept.
proof fn lemma_leads_reaches<X, A: ThreeFA<X>>(a: &A, w: Seq<X>, i: int, k: int, j: int) -> (trace:
    Set<<A::Post as Finite>::Model>)
    requires
        0 <= i,
        k <= j <= w.len(),
        leads(a, w, i, k),
    ensures
        reaches(a, w.take(j), i, k, trace),
        all_accepted(a, trace, w.skip(j)),
    decreases k - i,
{
    let v = w.take(j);
    if k == i {
        Set::empty()
    } else {
        let m = choose|m: int| i <= m < k && leads(a, w, i, m) && #[trigger] spans(a, w, m, k);
        let before = lemma_leads_reaches(a, w, i, m, j);
        lemma_ended_later(a, w, m, k, j);
        if ended(a, v, m, k) is None {
            lemma_post_run_gone(a, w.skip(j));
        }
        let p = ended(a, v, m, k).unwrap();
        let trace = before.insert(p);
        assert(reaches(a, v, i, m, before) && ended(a, v, m, k) is Some && trace == before.insert(
            ended(a, v, m, k).unwrap(),
        ));
        trace
    }
}

/// The traces, at the end of the input, of a repetition between `i` and `j`.
pub open spec fn last_traces<X, A: ThreeFA<X>>(a: &A, w: Seq<X>, i: int, j: int) -> Set<
    Seq<<A::Post as Finite>::Model>,
> {
    traces_after(a, plus_exits(a, traces_at(a, w.take(j), i)), w.skip(j))
}

/// The `Post` state of a repetition between `i` and `j`: its traces at the
/// end of the input, if there are any.
proof fn lemma_plus_ended<X: Copy, A: ThreeFA<X>>(l: &Plus<A>, w: Seq<X>, i: int, j: int)
    requires
        0 <= i <= j <= w.len(),
    ensures
        last_traces(&l.0, w, i, j).finite(),
        ended(l, w, i, j) == set_state::<OrdSet<A::Post>>(
            last_traces(&l.0, w, i, j),
        ),
{
    let a = &l.0;
    let v = w.take(j);
    let rest = w.skip(j);
    lemma_plus_begun(l, v, i);
    let traces = traces_at(a, v, i);
    lemma_canon::<(OrdSet<A::Post>, A::Active)>(traces);
    let g = |e: (Seq<<A::Post as Finite>::Model>, <A::Active as Finite>::Model)| plus_close(a, e);
    let out = plus_exits(a, traces);
    lemma_image_finite(traces, g);
    if opt_entered(a, pre_run(a, v.take(i))) is None {
        lemma_no_entry(a, v, i);
    }
    if begun(l, v, i) is None {
        assert(out =~= Set::empty());
    }
    assert(opt_exited(l, begun(l, v, i)) == set_state::<OrdSet<A::Post>>(out));
    lemma_plus_post_run(l, out, rest);
}

/// A trace of a repetition all of whose states accept comes from stretches
/// that the operand matches.
proof fn lemma_trace_is_chain<X, A: ThreeFA<X>>(
    a: &A,
    w: Seq<X>,
    i: int,
    j: int,
    t: Seq<<A::Post as Finite>::Model>,
) -> (k: int)
    requires
        0 <= i <= j <= w.len(),
        last_traces(a, w, i, j).contains(t),
        trace_accepting(a, t),
    ensures
        i <= k <= j,
        leads(a, w, i, k),
        spans(a, w, k, j),
{
    let v = w.take(j);
    let rest = w.skip(j);
    let traces = traces_at(a, v, i);
    let out = plus_exits(a, traces);
    let f = |t: Seq<<A::Post as Finite>::Model>| trace_run(a, t, rest);
    let g = |e: (Seq<<A::Post as Finite>::Model>, <A::Active as Finite>::Model)| plus_close(a, e);
    let t1 = choose|t1: Seq<<A::Post as Finite>::Model>|
        out.contains(t1) && #[trigger] f(t1) == Some(t);
    let e0 = choose|e0: (Seq<<A::Post as Finite>::Model>, <A::Active as Finite>::Model)|
        traces.contains(e0) && #[trigger] g(e0) == Some(t1);
    let (k, trace) = choose|k: int, trace: Set<<A::Post as Finite>::Model>|
        i <= k <= v.len() && #[trigger] trace_for(a, v, i, k, trace) == Some(e0);
    lemma_reaches_finite(a, v, i, k, trace);
    lemma_canon::<A::Post>(trace);
    lemma_ended_now(a, v, k);
    let x = ended(a, v, k, j).unwrap();
    let whole = trace.insert(x);
    assert(t1 == canon::<A::Post>(whole));
    lemma_trace_run(a, whole, rest);
    lemma_posts_after_finite(a, whole, rest);
    lemma_canon::<A::Post>(posts_after(a, whole, rest));
    let h = |q: <A::Post as Finite>::Model| post_run(a, Some(q), rest);
    assert forall|p: <A::Post as Finite>::Model| whole.contains(p) implies opt_post_accepting(
        a,
        #[trigger] post_run(a, Some(p), rest),
    ) by {
        let q = post_run(a, Some(p), rest).unwrap();
        assert(h(p) == Some(q));
        assert(posts_after(a, whole, rest).contains(q));
        assert(t.to_set().contains(q));
    }
    assert forall|p: <A::Post as Finite>::Model| trace.contains(p) implies opt_post_accepting(
        a,
        #[trigger] post_run(a, Some(p), rest),
    ) by {
        assert(whole.contains(p));
    }
    lemma_reaches_leads(a, w, i, k, j, trace);
    assert(whole.contains(x));
    lemma_ended_later(a, w, k, j, j);
    assert(w.take(j).take(j) =~= w.take(j));
    assert(spans(a, w, k, j));
    k
}

/// Stretches that the operand matches give a trace of the repetition all of
/// whose states accept.
proof fn lemma_chain_is_trace<X, A: ThreeFA<X>>(a: &A, w: Seq<X>, i: int, k: int, j: int) -> (t: Seq<
    <A::Post as Finite>::Model,
>)
    requires
        0 <= i <= k <= j <= w.len(),
        leads(a, w, i, k),
        spans(a, w, k, j),
    ensures
        last_traces(a, w, i, j).contains(t),
        trace_accepting(a, t),
{
    let v = w.take(j);
    let rest = w.skip(j);
    let traces = traces_at(a, v, i);
    let out = plus_exits(a, traces);
    let f = |t: Seq<<A::Post as Finite>::Model>| trace_run(a, t, rest);
    let g = |e: (Seq<<A::Post as Finite>::Model>, <A::Active as Finite>::Model)| plus_close(a, e);
    let trace = lemma_leads_reaches(a, w, i, k, j);
    lemma_reaches_finite(a, v, i, k, trace);
    lemma_canon::<A::Post>(trace);
    lemma_ended_now(a, v, k);
    lemma_ended_later(a, w, k, j, j);
    assert(w.take(j).take(j) =~= w.take(j));
    if ended(a, v, k, j) is None {
        lemma_post_run_gone(a, rest);
    }
    let x = ended(a, v, k, j).unwrap();
    let t0 = begun(a, v, k).unwrap();
    let e0 = (canon::<A::Post>(trace), t0);
    assert(trace_for(a, v, i, k, trace) == Some(e0));
    assert(traces.contains(e0));
    let whole = trace.insert(x);
    let t1 = canon::<A::Post>(whole);
    assert(g(e0) == Some(t1));
    assert(out.contains(t1));
    lemma_trace_run(a, whole, rest);
    lemma_posts_after_finite(a, whole, rest);
    let after = posts_after(a, whole, rest);
    lemma_canon::<A::Post>(after);
    let h = |q: <A::Post as Finite>::Model| post_run(a, Some(q), rest);
    assert forall|p: <A::Post as Finite>::Model| whole.contains(p) implies opt_post_accepting(
        a,
        #[trigger] post_run(a, Some(p), rest),
    ) by {}
    let t = canon::<A::Post>(after);
    assert(f(t1) == Some(t));
    assert forall|q: <A::Post as Finite>::Model| t.to_set().contains(
        q,
    ) implies #[trigger] a.post_accepting(q) by {
        let p = choose|p: <A::Post as Finite>::Model|
            whole.contains(p) && #[trigger] h(p) == Some(q);
        assert(opt_post_accepting(a, post_run(a, Some(p), rest)));
    }
    t
}

/// `Plus(A)` matches a stretch of the input exactly if `A` matches one or
/// more stretches in a row that make it up.
pub proof fn lemma_plus_spans<X: Copy, A: ThreeFA<X>>(l: &Plus<A>, w: Seq<X>, i: int, j: int)
    ensures
        spans(l, w, i, j) == repeats_at(&l.0, w, i, j),
{
    let a = &l.0;
    lemma_repeats_leads(a, w, i, j);
    if 0 <= i <= j <= w.len() {
        lemma_plus_ended(l, w, i, j);
        let last = last_traces(a, w, i, j);
        lemma_canon::<OrdSet<A::Post>>(last);
        if spans(l, w, i, j) {
            let t = choose|t: Seq<<A::Post as Finite>::Model>|
                last.contains(t) && #[trigger] trace_accepting(a, t);
            let k = lemma_trace_is_chain(a, w, i, j, t);
        }
        if repeats_at(a, w, i, j) {
            let k = choose|k: int| i <= k <= j && leads(a, w, i, k) && #[trigger] spans(a, w, k, j);
            let t = lemma_chain_is_trace(a, w, i, k, j);
            assert(plus_any_accepting(a, last));
        }
    } else {
        if repeats_at(a, w, i, j) {
            let k = choose|k: int| i <= k <= j && leads(a, w, i, k) && #[trigger] spans(a, w, k, j);
            if i < 0 {
                lemma_leads_within(a, w, i, k);
            }
        }
    }
}

} // verus!
