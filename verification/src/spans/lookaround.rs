//! What lookbehind and lookahead match.
//!
//! Both match the empty stretch at a position: `LookBehind(A)` where `A`
//! matches a stretch that ends at the position, `LookAhead(A)` where `A`
//! matches a stretch that begins there.
use vstd::prelude::*;
use crate::finite::Finite;
use crate::regex::{LookAhead, LookBehind};
use crate::sorted::{canon, image, lemma_canon, lemma_image_finite};
use crate::spans::{
    pre_run,
    active_run,
    post_run,
    begun,
    ended,
    spans,
    begun_set,
    set_state,
    posts_after,
    lemma_begun_set_empty,
    lemma_begun_set_finite,
    lemma_begun_set_push,
    lemma_active_run_gone,
    lemma_post_run_gone,
    lemma_image_option,
    lemma_canon_single,
    lemma_canon_option,
    lemma_posts_after_push,
    lemma_posts_after_finite,
};
use crate::threefa::{
    ThreeFA,
    option_set,
    opt_pre_step,
    opt_post_step,
    opt_entered,
    opt_exited,
    pre_moves,
    active_moves,
    post_moves,
    entries,
    exits,
    any_post_accepting,
};
use crate::threefa::lookbehind::lookbehind_active;
use crate::threefa::to_dfa::{to_dfa_active, to_dfa_post};

verus! {

proof fn lemma_lookbehind_pre_run<X: Copy, A: ThreeFA<X>>(l: &LookBehind<A>, w: Seq<X>)
    ensures
        pre_run(l, w) == if pre_run(&l.0, w) is Some || begun_set(&l.0, w) != Set::<
            <A::Active as Finite>::Model,
        >::empty() {
            Some(
                (
                    canon::<A::Pre>(option_set(pre_run(&l.0, w))),
                    canon::<A::Active>(begun_set(&l.0, w)),
                ),
            )
        } else {
            None
        },
    decreases w.len(),
{
    let a = &l.0;
    if w.len() == 0 {
        lemma_begun_set_empty(a, w);
        lemma_canon_single::<A::Pre>(a.pre_start());
    } else {
        let u = w.drop_last();
        let c = w.last();
        assert(w =~= u.push(c));
        lemma_lookbehind_pre_run(l, u);
        lemma_begun_set_push(a, u, c);
        lemma_begun_set_finite(a, u);
        lemma_canon::<A::Active>(begun_set(a, u));
        lemma_canon_option::<A::Pre>(pre_run(a, u));
        lemma_image_option(pre_run(a, u), |s: <A::Pre as Finite>::Model| a.pre_step(s, c));
        lemma_image_option(pre_run(a, w), |s: <A::Pre as Finite>::Model| a.entered(s));
        assert(pre_run(a, w) == opt_pre_step(a, pre_run(a, u), c));
        assert(pre_moves(a, option_set(pre_run(a, u)), c) == option_set(pre_run(a, w)));
        assert(entries(a, option_set(pre_run(a, w))) == option_set(
            opt_entered(a, pre_run(a, w)),
        ));
        assert(lookbehind_active(a, option_set(pre_run(a, w)), begun_set(a, u), c)
            == to_dfa_active(a, pre_run(a, w), begun_set(a, u), c));
        if pre_run(l, u) is None {
            assert(active_moves(a, begun_set(a, u), c) =~= Set::empty());
            assert(begun_set(a, w) =~= Set::empty());
        } else {
            if pre_run(a, w) is Some {
                assert(option_set(pre_run(a, w)).contains(pre_run(a, w).unwrap()));
            }
        }
    }
}

proof fn lemma_lookbehind_active_run<X: Copy, A: ThreeFA<X>>(
    l: &LookBehind<A>,
    s: Option<(Seq<<A::Pre as Finite>::Model>, Seq<<A::Active as Finite>::Model>)>,
    v: Seq<X>,
)
    ensures
        active_run(l, s, v) == if v.len() == 0 {
            s
        } else {
            None
        },
    decreases v.len(),
{
    if v.len() > 0 {
        lemma_lookbehind_active_run(l, s, v.drop_last());
    }
}

proof fn lemma_lookbehind_post_run<X: Copy, A: ThreeFA<X>>(
    l: &LookBehind<A>,
    set: Set<<A::Post as Finite>::Model>,
    rest: Seq<X>,
)
    requires
        set.finite(),
    ensures
        post_run(l, set_state::<A::Post>(set), rest) == set_state::<A::Post>(
            posts_after(&l.0, set, rest),
        ),
    decreases rest.len(),
{
    let a = &l.0;
    if rest.len() == 0 {
        let f = |q: <A::Post as Finite>::Model| post_run(a, Some(q), rest);
        assert forall|q: <A::Post as Finite>::Model| set.contains(q) <==> posts_after(
            a,
            set,
            rest,
        ).contains(q) by {
            if set.contains(q) {
                assert(f(q) == Some(q));
            }
            if posts_after(a, set, rest).contains(q) {
                let q0 = choose|q0: <A::Post as Finite>::Model|
                    set.contains(q0) && #[trigger] f(q0) == Some(q);
            }
        }
        assert(posts_after(a, set, rest) =~= set);
    } else {
        let r = rest.drop_last();
        let c = rest.last();
        assert(rest =~= r.push(c));
        lemma_lookbehind_post_run(l, set, r);
        lemma_posts_after_push(a, set, r, c);
        lemma_posts_after_finite(a, set, r);
        lemma_canon::<A::Post>(posts_after(a, set, r));
        if posts_after(a, set, r) == Set::<<A::Post as Finite>::Model>::empty() {
            assert(post_moves(a, posts_after(a, set, r), c) =~= Set::empty());
        }
    }
}

/// The `Post` states of the matches of `a` that have begun and can end at the end of `v`.
proof fn lemma_exits_of_begun<X, A: ThreeFA<X>>(a: &A, v: Seq<X>, q: <A::Post as Finite>::Model)
    ensures
        exits(a, begun_set(a, v)).contains(q) <==> exists|k: int|
            0 <= k <= v.len() && #[trigger] opt_exited(a, begun(a, v, k)) == Some(q),
{
    let g = |s: <A::Active as Finite>::Model| a.exited(s);
    if exits(a, begun_set(a, v)).contains(q) {
        let t = choose|t: <A::Active as Finite>::Model|
            begun_set(a, v).contains(t) && #[trigger] g(t) == Some(q);
        let k = choose|k: int| 0 <= k <= v.len() && #[trigger] begun(a, v, k) == Some(t);
        assert(opt_exited(a, begun(a, v, k)) == Some(q));
    }
    if exists|k: int| 0 <= k <= v.len() && #[trigger] opt_exited(a, begun(a, v, k)) == Some(q) {
        let k = choose|k: int|
            0 <= k <= v.len() && #[trigger] opt_exited(a, begun(a, v, k)) == Some(q);
        let t = begun(a, v, k).unwrap();
        assert(begun_set(a, v).contains(t));
        assert(g(t) == Some(q));
    }
}

/// `LookBehind(A)` matches the empty stretch at a position exactly if `A`
/// matches a stretch that ends at that position.
pub proof fn lemma_lookbehind_spans<X: Copy, A: ThreeFA<X>>(
    l: &LookBehind<A>,
    w: Seq<X>,
    i: int,
    j: int,
)
    ensures
        spans(l, w, i, j) == (i == j && exists|k: int| #[trigger] spans(&l.0, w, k, i)),
{
    let a = &l.0;
    if 0 <= i <= j <= w.len() {
        let v = w.take(j);
        let rest = w.skip(j);
        lemma_lookbehind_active_run(l, opt_entered(l, pre_run(l, v.take(i))), v.skip(i));
        if i < j {
            lemma_post_run_gone(l, rest);
        } else {
            assert(v.take(i) =~= v);
            lemma_lookbehind_pre_run(l, v);
            lemma_begun_set_finite(a, v);
            lemma_canon::<A::Active>(begun_set(a, v));
            let out = exits(a, begun_set(a, v));
            lemma_image_finite(begun_set(a, v), |s: <A::Active as Finite>::Model| a.exited(s));
            if pre_run(l, v) is None {
                assert(out =~= Set::empty());
            }
            assert(opt_exited(l, begun(l, v, i)) == set_state::<A::Post>(out));
            lemma_lookbehind_post_run(l, out, rest);
            lemma_posts_after_finite(a, out, rest);
            let last = posts_after(a, out, rest);
            lemma_canon::<A::Post>(last);
            assert(ended(l, w, i, j) == set_state::<A::Post>(last));
            let f = |q: <A::Post as Finite>::Model| post_run(a, Some(q), rest);
            if spans(l, w, i, j) {
                let q = choose|q: <A::Post as Finite>::Model|
                    last.contains(q) && #[trigger] a.post_accepting(q);
                let q0 = choose|q0: <A::Post as Finite>::Model|
                    out.contains(q0) && #[trigger] f(q0) == Some(q);
                lemma_exits_of_begun(a, v, q0);
                let k = choose|k: int|
                    0 <= k <= v.len() && #[trigger] opt_exited(a, begun(a, v, k)) == Some(q0);
                assert(ended(a, w, k, i) == Some(q));
                assert(spans(a, w, k, i));
            }
            if exists|k: int| #[trigger] spans(a, w, k, i) {
                let k = choose|k: int| #[trigger] spans(a, w, k, i);
                let q = ended(a, w, k, i).unwrap();
                if opt_exited(a, begun(a, v, k)) is None {
                    lemma_post_run_gone(a, rest);
                }
                let q0 = opt_exited(a, begun(a, v, k)).unwrap();
                lemma_exits_of_begun(a, v, q0);
                assert(out.contains(q0));
                assert(f(q0) == Some(q));
                assert(last.contains(q));
                assert(a.post_accepting(q));
                assert(any_post_accepting(a, last));
            }
        }
    } else {
        if exists|k: int| #[trigger] spans(a, w, k, i) {
            let k = choose|k: int| #[trigger] spans(a, w, k, i);
        }
    }
}

/// The `Post` state at the end of `r` of the match that begins in the
/// `Active` state `x` and ends after the first `m` symbols of `r`.
pub open spec fn ahead_ended<X, A: ThreeFA<X>>(
    a: &A,
    x: Option<<A::Active as Finite>::Model>,
    r: Seq<X>,
    m: int,
) -> Option<<A::Post as Finite>::Model> {
    post_run(a, opt_exited(a, active_run(a, x, r.take(m))), r.skip(m))
}

/// The `Post` states at the end of `r` of the matches that begin in the
/// `Active` state `x` and have ended.
pub open spec fn ahead_post<X, A: ThreeFA<X>>(
    a: &A,
    x: Option<<A::Active as Finite>::Model>,
    r: Seq<X>,
) -> Set<<A::Post as Finite>::Model> {
    Set::new(
        |q: <A::Post as Finite>::Model|
            exists|m: int| 0 <= m <= r.len() && #[trigger] ahead_ended(a, x, r, m) == Some(q),
    )
}

/// The state that stands for two sets of alternatives: gone if there is none in either.
pub open spec fn pair_state<S: Finite, T: Finite>(s: Set<S::Model>, t: Set<T::Model>) -> Option<
    (Seq<S::Model>, Seq<T::Model>),
> {
    if s != Set::<S::Model>::empty() || t != Set::<T::Model>::empty() {
        Some((canon::<S>(s), canon::<T>(t)))
    } else {
        None
    }
}

proof fn lemma_ahead_ended_push<X, A: ThreeFA<X>>(
    a: &A,
    x: Option<<A::Active as Finite>::Model>,
    r: Seq<X>,
    c: X,
    m: int,
)
    requires
        0 <= m <= r.len() + 1,
    ensures
        ahead_ended(a, x, r.push(c), m) == if m <= r.len() {
            opt_post_step(a, ahead_ended(a, x, r, m), c)
        } else {
            opt_exited(a, active_run(a, x, r.push(c)))
        },
{
    let rc = r.push(c);
    if m <= r.len() {
        assert(rc.take(m) =~= r.take(m));
        assert(rc.skip(m) =~= r.skip(m).push(c));
        assert(rc.skip(m).drop_last() =~= r.skip(m));
    } else {
        assert(rc.take(m) =~= rc);
        assert(rc.skip(m) =~= Seq::<X>::empty());
    }
}

proof fn lemma_ahead_post_push<X, A: ThreeFA<X>>(
    a: &A,
    x: Option<<A::Active as Finite>::Model>,
    r: Seq<X>,
    c: X,
)
    ensures
        ahead_post(a, x, r.push(c)) == to_dfa_post(
            a,
            option_set(active_run(a, x, r.push(c))),
            ahead_post(a, x, r),
            c,
        ),
{
    let rc = r.push(c);
    let lhs = ahead_post(a, x, rc);
    let f = |s: <A::Post as Finite>::Model| a.post_step(s, c);
    let moved = image(ahead_post(a, x, r), f);
    let now = active_run(a, x, rc);
    lemma_image_option(now, |s: <A::Active as Finite>::Model| a.exited(s));
    let out = option_set(opt_exited(a, now));
    let rhs = to_dfa_post(a, option_set(now), ahead_post(a, x, r), c);
    assert(rhs == moved.union(out));
    assert forall|q: <A::Post as Finite>::Model| lhs.contains(q) implies rhs.contains(q) by {
        let m = choose|m: int| 0 <= m <= rc.len() && #[trigger] ahead_ended(a, x, rc, m) == Some(q);
        lemma_ahead_ended_push(a, x, r, c, m);
        if m <= r.len() {
            let q0 = ahead_ended(a, x, r, m).unwrap();
            assert(ahead_post(a, x, r).contains(q0));
            assert(f(q0) == Some(q));
        }
    }
    assert forall|q: <A::Post as Finite>::Model| rhs.contains(q) implies lhs.contains(q) by {
        if moved.contains(q) {
            let q0 = choose|q0: <A::Post as Finite>::Model|
                ahead_post(a, x, r).contains(q0) && #[trigger] f(q0) == Some(q);
            let m = choose|m: int|
                0 <= m <= r.len() && #[trigger] ahead_ended(a, x, r, m) == Some(q0);
            lemma_ahead_ended_push(a, x, r, c, m);
            assert(ahead_ended(a, x, rc, m) == Some(q));
        } else {
            let m = rc.len() as int;
            lemma_ahead_ended_push(a, x, r, c, m);
            assert(ahead_ended(a, x, rc, m) == Some(q));
        }
    }
    assert(lhs =~= rhs);
}

proof fn lemma_lookahead_pre_run<X: Copy, A: ThreeFA<X>>(l: &LookAhead<A>, w: Seq<X>)
    ensures
        pre_run(l, w) == pre_run(&l.0, w),
    decreases w.len(),
{
    if w.len() > 0 {
        lemma_lookahead_pre_run(l, w.drop_last());
    }
}

proof fn lemma_lookahead_active_run<X: Copy, A: ThreeFA<X>>(
    l: &LookAhead<A>,
    s: Option<<A::Pre as Finite>::Model>,
    v: Seq<X>,
)
    ensures
        active_run(l, s, v) == if v.len() == 0 {
            s
        } else {
            None
        },
    decreases v.len(),
{
    if v.len() > 0 {
        lemma_lookahead_active_run(l, s, v.drop_last());
    }
}

/// The state of a lookahead behind its position: the operand's match under
/// way from the position, and its matches from the position that have ended.
proof fn lemma_lookahead_post_run<X: Copy, A: ThreeFA<X>>(
    l: &LookAhead<A>,
    x: <A::Active as Finite>::Model,
    r: Seq<X>,
)
    ensures
        ahead_post(&l.0, Some(x), r).finite(),
        post_run(
            l,
            Some((seq![x], canon::<A::Post>(option_set(l.0.exited(x))))),
            r,
        ) == pair_state::<A::Active, A::Post>(
            option_set(active_run(&l.0, Some(x), r)),
            ahead_post(&l.0, Some(x), r),
        ),
    decreases r.len(),
{
    let a = &l.0;
    if r.len() == 0 {
        lemma_canon_single::<A::Active>(x);
        assert forall|q: <A::Post as Finite>::Model| ahead_post(a, Some(x), r).contains(q)
            <==> option_set(a.exited(x)).contains(q) by {
            assert(r.take(0) =~= r);
            assert(r.skip(0) =~= r);
            if ahead_post(a, Some(x), r).contains(q) {
                let m = choose|m: int|
                    0 <= m <= r.len() && #[trigger] ahead_ended(a, Some(x), r, m) == Some(q);
            }
            if option_set(a.exited(x)).contains(q) {
                assert(ahead_ended(a, Some(x), r, 0) == Some(q));
            }
        }
        assert(ahead_post(a, Some(x), r) =~= option_set(a.exited(x)));
        assert(option_set(Some(x)).contains(x));
    } else {
        let u = r.drop_last();
        let c = r.last();
        assert(r =~= u.push(c));
        lemma_lookahead_post_run(l, x, u);
        lemma_ahead_post_push(a, Some(x), u, c);
        let before = active_run(a, Some(x), u);
        let now = active_run(a, Some(x), r);
        lemma_canon_option::<A::Active>(before);
        lemma_canon::<A::Post>(ahead_post(a, Some(x), u));
        lemma_image_option(before, |s: <A::Active as Finite>::Model| a.active_step(s, c));
        lemma_image_option(now, |s: <A::Active as Finite>::Model| a.exited(s));
        lemma_image_finite(ahead_post(a, Some(x), u), |s: <A::Post as Finite>::Model| a.post_step(s, c));
        assert(active_moves(a, option_set(before), c) == option_set(now));
        if before is None && ahead_post(a, Some(x), u) == Set::<
            <A::Post as Finite>::Model,
        >::empty() {
            assert(post_moves(a, ahead_post(a, Some(x), u), c) =~= Set::empty());
            assert(ahead_post(a, Some(x), r) =~= Set::empty());
        } else {
            if before is Some {
                assert(option_set(before).contains(before.unwrap()));
            }
            if now is Some {
                assert(option_set(now).contains(now.unwrap()));
            }
        }
    }
}

/// The match of `a` that begins at position `i` and ends `m` symbols later.
proof fn lemma_ahead_is_ended<X, A: ThreeFA<X>>(a: &A, w: Seq<X>, i: int, m: int)
    requires
        0 <= i,
        0 <= m,
        i + m <= w.len(),
    ensures
        ahead_ended(a, opt_entered(a, pre_run(a, w.take(i))), w.skip(i), m) == ended(
            a,
            w,
            i,
            i + m,
        ),
{
    let v = w.take(i + m);
    assert(v.take(i) =~= w.take(i));
    assert(v.skip(i) =~= w.skip(i).take(m));
    assert(w.skip(i).skip(m) =~= w.skip(i + m));
}

/// `LookAhead(A)` matches the empty stretch at a position exactly if `A`
/// matches a stretch that begins at that position.
pub proof fn lemma_lookahead_spans<X: Copy, A: ThreeFA<X>>(
    l: &LookAhead<A>,
    w: Seq<X>,
    i: int,
    j: int,
)
    ensures
        spans(l, w, i, j) == (i == j && exists|k: int| #[trigger] spans(&l.0, w, i, k)),
{
    let a = &l.0;
    if 0 <= i <= j <= w.len() {
        let v = w.take(j);
        let rest = w.skip(j);
        lemma_lookahead_pre_run(l, v.take(i));
        lemma_lookahead_active_run(l, opt_entered(l, pre_run(l, v.take(i))), v.skip(i));
        if i < j {
            lemma_post_run_gone(l, rest);
        } else {
            assert(v.take(i) =~= v);
            let start = opt_entered(a, pre_run(a, v));
            match start {
                None => {
                    lemma_post_run_gone(l, rest);
                    if exists|k: int| #[trigger] spans(a, w, i, k) {
                        let k = choose|k: int| #[trigger] spans(a, w, i, k);
                        assert(w.take(k).take(i) =~= v);
                        lemma_active_run_gone(a, w.take(k).skip(i));
                        lemma_post_run_gone(a, w.skip(k));
                    }
                },
                Some(x) => {
                    lemma_lookahead_post_run(l, x, rest);
                    let posts = ahead_post(a, Some(x), rest);
                    lemma_canon::<A::Post>(posts);
                    assert(ended(l, w, i, j) == pair_state::<A::Active, A::Post>(
                        option_set(active_run(a, Some(x), rest)),
                        posts,
                    ));
                    if spans(l, w, i, j) {
                        let q = choose|q: <A::Post as Finite>::Model|
                            posts.contains(q) && #[trigger] a.post_accepting(q);
                        let m = choose|m: int|
                            0 <= m <= rest.len() && #[trigger] ahead_ended(a, Some(x), rest, m)
                                == Some(q);
                        lemma_ahead_is_ended(a, w, i, m);
                        assert(spans(a, w, i, i + m));
                    }
                    if exists|k: int| #[trigger] spans(a, w, i, k) {
                        let k = choose|k: int| #[trigger] spans(a, w, i, k);
                        let m = k - i;
                        lemma_ahead_is_ended(a, w, i, m);
                        let q = ended(a, w, i, k).unwrap();
                        assert(ahead_ended(a, Some(x), rest, m) == Some(q));
                        assert(posts.contains(q));
                        assert(a.post_accepting(q));
                        assert(any_post_accepting(a, posts));
                    }
                },
            }
        }
    } else {
        if exists|k: int| #[trigger] spans(a, w, i, k) {
            let k = choose|k: int| #[trigger] spans(a, w, i, k);
        }
    }
}

} // verus!
