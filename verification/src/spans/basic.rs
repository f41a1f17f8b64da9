//! What the three-phase combinators match, in terms of what their operands match.
use vstd::prelude::*;
use crate::dfa::{Dfa, accepts, run_from};
use crate::finite::Finite;
use crate::regex::{And, End, FromDfa, Not, Or, Start};
use crate::spans::{pre_run, active_run, post_run, begun, spans};
use crate::threefa::{ThreeFA, opt_entered, opt_exited};
use crate::threefa::and::both;
use crate::threefa::or::either_side;

verus! {

proof fn lemma_start_pre_run<X>(w: Seq<X>)
    ensures
        pre_run(&Start, w) == if w.len() == 0 {
            Some(())
        } else {
            None::<()>
        },
    decreases w.len(),
{
    if w.len() > 0 {
        lemma_start_pre_run(w.drop_last());
    }
}

proof fn lemma_start_active_run<X>(s: Option<()>, w: Seq<X>)
    ensures
        active_run(&Start, s, w) == if w.len() == 0 {
            s
        } else {
            None::<()>
        },
    decreases w.len(),
{
    if w.len() > 0 {
        lemma_start_active_run(s, w.drop_last());
    }
}

proof fn lemma_start_post_run<X>(s: Option<()>, w: Seq<X>)
    ensures
        post_run(&Start, s, w) == s,
    decreases w.len(),
{
    if w.len() > 0 {
        lemma_start_post_run(s, w.drop_last());
    }
}

/// `Start` matches the empty stretch at the beginning of the input, and
/// nothing else.
pub proof fn lemma_start_spans<X>(w: Seq<X>, i: int, j: int)
    ensures
        spans(&Start, w, i, j) == (i == 0 && j == 0),
{
    if 0 <= i <= j <= w.len() {
        let v = w.take(j);
        lemma_start_pre_run(v.take(i));
        lemma_start_active_run(
            opt_entered::<X, Start>(&Start, pre_run(&Start, v.take(i))),
            v.skip(i),
        );
        lemma_start_post_run(opt_exited::<X, Start>(&Start, begun(&Start, v, i)), w.skip(j));
    }
}

proof fn lemma_end_pre_run<X>(w: Seq<X>)
    ensures
        pre_run(&End, w) == Some(()),
    decreases w.len(),
{
    if w.len() > 0 {
        lemma_end_pre_run(w.drop_last());
    }
}

proof fn lemma_end_active_run<X>(s: Option<()>, w: Seq<X>)
    ensures
        active_run(&End, s, w) == if w.len() == 0 {
            s
        } else {
            None::<()>
        },
    decreases w.len(),
{
    if w.len() > 0 {
        lemma_end_active_run(s, w.drop_last());
    }
}

proof fn lemma_end_post_run<X>(s: Option<()>, w: Seq<X>)
    ensures
        post_run(&End, s, w) == if w.len() == 0 {
            s
        } else {
            None::<()>
        },
    decreases w.len(),
{
    if w.len() > 0 {
        lemma_end_post_run(s, w.drop_last());
    }
}

/// `End` matches the empty stretch at the end of the input, and nothing else.
pub proof fn lemma_end_spans<X>(w: Seq<X>, i: int, j: int)
    ensures
        spans(&End, w, i, j) == (0 <= i && i == j && j == w.len()),
{
    if 0 <= i <= j <= w.len() {
        let v = w.take(j);
        lemma_end_pre_run(v.take(i));
        lemma_end_active_run(opt_entered::<X, End>(&End, pre_run(&End, v.take(i))), v.skip(i));
        lemma_end_post_run(opt_exited::<X, End>(&End, begun(&End, v, i)), w.skip(j));
    }
}

proof fn lemma_from_dfa_pre_run<X, A: Dfa<X>>(f: &FromDfa<A>, w: Seq<X>)
    ensures
        pre_run(f, w) == Some(()),
    decreases w.len(),
{
    if w.len() > 0 {
        lemma_from_dfa_pre_run(f, w.drop_last());
    }
}

proof fn lemma_from_dfa_active_run<X, A: Dfa<X>>(
    f: &FromDfa<A>,
    s: <A::State as Finite>::Model,
    w: Seq<X>,
)
    ensures
        active_run(f, Some(s), w) == run_from(&f.0, s, w),
    decreases w.len(),
{
    if w.len() > 0 {
        lemma_from_dfa_active_run(f, s, w.drop_last());
    }
}

proof fn lemma_from_dfa_post_run<X, A: Dfa<X>>(f: &FromDfa<A>, s: Option<()>, w: Seq<X>)
    ensures
        post_run(f, s, w) == s,
    decreases w.len(),
{
    if w.len() > 0 {
        lemma_from_dfa_post_run(f, s, w.drop_last());
    }
}

/// `FromDfa(A)` matches a stretch of the input exactly if `A` accepts it.
pub proof fn lemma_from_dfa_spans<X, A: Dfa<X>>(f: &FromDfa<A>, w: Seq<X>, i: int, j: int)
    ensures
        spans(f, w, i, j) == (0 <= i <= j <= w.len() && accepts(&f.0, w.subrange(i, j))),
{
    if 0 <= i <= j <= w.len() {
        let v = w.take(j);
        lemma_from_dfa_pre_run(f, v.take(i));
        lemma_from_dfa_active_run(f, f.0.start(), v.skip(i));
        assert(v.skip(i) =~= w.subrange(i, j));
        lemma_from_dfa_post_run(f, opt_exited(f, begun(f, v, i)), w.skip(j));
    }
}

proof fn lemma_not_pre_run<X: Copy, A: ThreeFA<X>>(n: &Not<A>, w: Seq<X>)
    ensures
        pre_run(n, w) == Some(pre_run(&n.0, w)),
    decreases w.len(),
{
    if w.len() > 0 {
        lemma_not_pre_run(n, w.drop_last());
    }
}

proof fn lemma_not_active_run<X: Copy, A: ThreeFA<X>>(
    n: &Not<A>,
    s: Option<<A::Active as Finite>::Model>,
    w: Seq<X>,
)
    ensures
        active_run(n, Some(s), w) == Some(active_run(&n.0, s, w)),
    decreases w.len(),
{
    if w.len() > 0 {
        lemma_not_active_run(n, s, w.drop_last());
    }
}

proof fn lemma_not_post_run<X: Copy, A: ThreeFA<X>>(
    n: &Not<A>,
    s: Option<<A::Post as Finite>::Model>,
    w: Seq<X>,
)
    ensures
        post_run(n, Some(s), w) == Some(post_run(&n.0, s, w)),
    decreases w.len(),
{
    if w.len() > 0 {
        lemma_not_post_run(n, s, w.drop_last());
    }
}

/// `Not(A)` matches a stretch of the input exactly if `A` does not.
pub proof fn lemma_not_spans<X: Copy, A: ThreeFA<X>>(n: &Not<A>, w: Seq<X>, i: int, j: int)
    ensures
        spans(n, w, i, j) == (0 <= i <= j <= w.len() && !spans(&n.0, w, i, j)),
{
    if 0 <= i <= j <= w.len() {
        let v = w.take(j);
        lemma_not_pre_run(n, v.take(i));
        lemma_not_active_run(n, opt_entered(&n.0, pre_run(&n.0, v.take(i))), v.skip(i));
        lemma_not_post_run(n, opt_exited(&n.0, begun(&n.0, v, i)), w.skip(j));
    }
}

proof fn lemma_and_pre_run<X: Copy, A: ThreeFA<X>, B: ThreeFA<X>>(o: &And<A, B>, w: Seq<X>)
    ensures
        pre_run(o, w) == both(pre_run(&o.0, w), pre_run(&o.1, w)),
    decreases w.len(),
{
    if w.len() > 0 {
        lemma_and_pre_run(o, w.drop_last());
    }
}

proof fn lemma_and_active_run<X: Copy, A: ThreeFA<X>, B: ThreeFA<X>>(
    o: &And<A, B>,
    s: Option<<A::Active as Finite>::Model>,
    t: Option<<B::Active as Finite>::Model>,
    w: Seq<X>,
)
    ensures
        active_run(o, both(s, t), w) == both(active_run(&o.0, s, w), active_run(&o.1, t, w)),
    decreases w.len(),
{
    if w.len() > 0 {
        lemma_and_active_run(o, s, t, w.drop_last());
    }
}

proof fn lemma_and_post_run<X: Copy, A: ThreeFA<X>, B: ThreeFA<X>>(
    o: &And<A, B>,
    s: Option<<A::Post as Finite>::Model>,
    t: Option<<B::Post as Finite>::Model>,
    w: Seq<X>,
)
    ensures
        post_run(o, both(s, t), w) == both(post_run(&o.0, s, w), post_run(&o.1, t, w)),
    decreases w.len(),
{
    if w.len() > 0 {
        lemma_and_post_run(o, s, t, w.drop_last());
    }
}

/// `And(A, B)` matches a stretch of the input exactly if both `A` and `B` do.
pub proof fn lemma_and_spans<X: Copy, A: ThreeFA<X>, B: ThreeFA<X>>(
    o: &And<A, B>,
    w: Seq<X>,
    i: int,
    j: int,
)
    ensures
        spans(o, w, i, j) == (spans(&o.0, w, i, j) && spans(&o.1, w, i, j)),
{
    if 0 <= i <= j <= w.len() {
        let v = w.take(j);
        lemma_and_pre_run(o, v.take(i));
        lemma_and_active_run(
            o,
            opt_entered(&o.0, pre_run(&o.0, v.take(i))),
            opt_entered(&o.1, pre_run(&o.1, v.take(i))),
            v.skip(i),
        );
        lemma_and_post_run(
            o,
            opt_exited(&o.0, begun(&o.0, v, i)),
            opt_exited(&o.1, begun(&o.1, v, i)),
            w.skip(j),
        );
    }
}

proof fn lemma_or_pre_run<X: Copy, A: ThreeFA<X>, B: ThreeFA<X>>(o: &Or<A, B>, w: Seq<X>)
    ensures
        pre_run(o, w) == either_side(pre_run(&o.0, w), pre_run(&o.1, w)),
    decreases w.len(),
{
    if w.len() > 0 {
        lemma_or_pre_run(o, w.drop_last());
    }
}

proof fn lemma_or_active_run<X: Copy, A: ThreeFA<X>, B: ThreeFA<X>>(
    o: &Or<A, B>,
    s: Option<<A::Active as Finite>::Model>,
    t: Option<<B::Active as Finite>::Model>,
    w: Seq<X>,
)
    ensures
        active_run(o, either_side(s, t), w) == either_side(
            active_run(&o.0, s, w),
            active_run(&o.1, t, w),
        ),
    decreases w.len(),
{
    if w.len() > 0 {
        lemma_or_active_run(o, s, t, w.drop_last());
    }
}

proof fn lemma_or_post_run<X: Copy, A: ThreeFA<X>, B: ThreeFA<X>>(
    o: &Or<A, B>,
    s: Option<<A::Post as Finite>::Model>,
    t: Option<<B::Post as Finite>::Model>,
    w: Seq<X>,
)
    ensures
        post_run(o, either_side(s, t), w) == either_side(
            post_run(&o.0, s, w),
            post_run(&o.1, t, w),
        ),
    decreases w.len(),
{
    if w.len() > 0 {
        lemma_or_post_run(o, s, t, w.drop_last());
    }
}

/// `Or(A, B)` matches a stretch of the input exactly if `A` or `B` does.
pub proof fn lemma_or_spans<X: Copy, A: ThreeFA<X>, B: ThreeFA<X>>(
    o: &Or<A, B>,
    w: Seq<X>,
    i: int,
    j: int,
)
    ensures
        spans(o, w, i, j) == (spans(&o.0, w, i, j) || spans(&o.1, w, i, j)),
{
    if 0 <= i <= j <= w.len() {
        let v = w.take(j);
        lemma_or_pre_run(o, v.take(i));
        lemma_or_active_run(
            o,
            opt_entered(&o.0, pre_run(&o.0, v.take(i))),
            opt_entered(&o.1, pre_run(&o.1, v.take(i))),
            v.skip(i),
        );
        lemma_or_post_run(
            o,
            opt_exited(&o.0, begun(&o.0, v, i)),
            opt_exited(&o.1, begun(&o.1, v, i)),
            w.skip(j),
        );
    }
}

} // verus!
