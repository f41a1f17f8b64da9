//! What a concatenation of three-phase automata matches: a stretch that the
//! first operand matches, followed at once by a stretch that the second
//! operand matches.
use vstd::prelude::*;
use crate::finite::Finite;
use crate::regex::Concat;
use crate::sorted::{canon, image, lemma_canon, lemma_image_finite};
use crate::spans::{
    pre_run,
    post_run,
    begun,
    ended,
    spans,
    set_state,
    lemma_begun_push,
    lemma_ended_push,
    lemma_ended_later,
    lemma_post_run_gone,
    lemma_canon_option,
};
use crate::threefa::{ThreeFA, option_set, opt_exited};
use crate::threefa::and::both;
use crate::threefa::concat::{
    concat_head_step,
    concat_handover,
    concat_tail_moves,
    concat_post_moves,
    concat_exits,
    concat_any_accepting,
};

verus! {

/// The state, at the end of `v`, of the continuation in which the first
/// operand's match began at `i` and ended at `k`, where the second operand's began.
pub open spec fn handed<X, A: ThreeFA<X>, B: ThreeFA<X>>(
    a: &A,
    b: &B,
    v: Seq<X>,
    i: int,
    k: int,
) -> Option<(<A::Post as Finite>::Model, <B::Active as Finite>::Model)> {
    both(ended(a, v, i, k), begun(b, v, k))
}

/// The continuations, at the end of `v`, in which the first operand is done
/// and the second is matching.
pub open spec fn tail_at<X, A: ThreeFA<X>, B: ThreeFA<X>>(a: &A, b: &B, v: Seq<X>, i: int) -> Set<
    (<A::Post as Finite>::Model, <B::Active as Finite>::Model),
> {
    Set::new(
        |e: (<A::Post as Finite>::Model, <B::Active as Finite>::Model)|
            exists|k: int| i <= k <= v.len() && #[trigger] handed(a, b, v, i, k) == Some(e),
    )
}

/// The first operand still matching from `i`, and the second still waiting,
/// at the end of `v`.
pub open spec fn head_at<X, A: ThreeFA<X>, B: ThreeFA<X>>(a: &A, b: &B, v: Seq<X>, i: int) -> Option<
    (<A::Active as Finite>::Model, <B::Pre as Finite>::Model),
> {
    both(begun(a, v, i), pre_run(b, v))
}

/// The state of both operands, at the end of the input, for the first
/// operand's match between `i` and `k` and the second operand's between `k` and `j`.
pub open spec fn joined<X, A: ThreeFA<X>, B: ThreeFA<X>>(
    a: &A,
    b: &B,
    w: Seq<X>,
    i: int,
    k: int,
    j: int,
) -> Option<(<A::Post as Finite>::Model, <B::Post as Finite>::Model)> {
    both(ended(a, w, i, k), ended(b, w, k, j))
}

/// The continuations in which both operands are done, for a match between `i` and `j`.
pub open spec fn post_at<X, A: ThreeFA<X>, B: ThreeFA<X>>(
    a: &A,
    b: &B,
    w: Seq<X>,
    i: int,
    j: int,
) -> Set<(<A::Post as Finite>::Model, <B::Post as Finite>::Model)> {
    Set::new(
        |e: (<A::Post as Finite>::Model, <B::Post as Finite>::Model)|
            exists|k: int| i <= k <= j && #[trigger] joined(a, b, w, i, k, j) == Some(e),
    )
}

proof fn lemma_concat_pre_run<X: Copy, A: ThreeFA<X>, B: ThreeFA<X>>(c: &Concat<A, B>, w: Seq<X>)
    ensures
        pre_run(c, w) == both(pre_run(&c.0, w), pre_run(&c.1, w)),
    decreases w.len(),
{
    if w.len() > 0 {
        lemma_concat_pre_run(c, w.drop_last());
    }
}

proof fn lemma_tail_push<X: Copy, A: ThreeFA<X>, B: ThreeFA<X>>(
    a: &A,
    b: &B,
    u: Seq<X>,
    ch: X,
    i: int,
)
    requires
        0 <= i <= u.len(),
    ensures
        tail_at(a, b, u.push(ch), i) == concat_tail_moves(a, b, tail_at(a, b, u, i), ch).union(
            option_set(concat_handover(a, b, head_at(a, b, u.push(ch), i))),
        ),
{
    let v = u.push(ch);
    let lhs = tail_at(a, b, v, i);
    let f = |e: (<A::Post as Finite>::Model, <B::Active as Finite>::Model)|
        both(a.post_step(e.0, ch), b.active_step(e.1, ch));
    let moved = image(tail_at(a, b, u, i), f);
    let over = option_set(concat_handover(a, b, head_at(a, b, v, i)));
    let rhs = concat_tail_moves(a, b, tail_at(a, b, u, i), ch).union(over);
    assert(rhs == moved.union(over));
    let last = v.len() as int;
    lemma_ended_push(a, u, ch, i, last);
    lemma_begun_push(b, u, ch, last);
    assert(handed(a, b, v, i, last) == concat_handover(a, b, head_at(a, b, v, i)));
    assert forall|e: (<A::Post as Finite>::Model, <B::Active as Finite>::Model)|
        lhs.contains(e) implies rhs.contains(e) by {
        let k = choose|k: int| i <= k <= v.len() && #[trigger] handed(a, b, v, i, k) == Some(e);
        if k <= u.len() {
            lemma_ended_push(a, u, ch, i, k);
            lemma_begun_push(b, u, ch, k);
            let e0 = handed(a, b, u, i, k).unwrap();
            assert(tail_at(a, b, u, i).contains(e0));
            assert(f(e0) == Some(e));
        }
    }
    assert forall|e: (<A::Post as Finite>::Model, <B::Active as Finite>::Model)|
        rhs.contains(e) implies lhs.contains(e) by {
        if moved.contains(e) {
            let e0 = choose|e0: (<A::Post as Finite>::Model, <B::Active as Finite>::Model)|
                tail_at(a, b, u, i).contains(e0) && #[trigger] f(e0) == Some(e);
            let k = choose|k: int|
                i <= k <= u.len() && #[trigger] handed(a, b, u, i, k) == Some(e0);
            lemma_ended_push(a, u, ch, i, k);
            lemma_begun_push(b, u, ch, k);
            assert(handed(a, b, v, i, k) == Some(e));
        } else {
            assert(handed(a, b, v, i, last) == Some(e));
        }
    }
    assert(lhs =~= rhs);
}

/// The state of a concatenation whose match began at `i`, at the end of `v`.
proof fn lemma_concat_begun<X: Copy, A: ThreeFA<X>, B: ThreeFA<X>>(
    c: &Concat<A, B>,
    v: Seq<X>,
    i: int,
)
    requires
        0 <= i <= v.len(),
    ensures
        tail_at(&c.0, &c.1, v, i).finite(),
        begun(c, v, i) == if head_at(&c.0, &c.1, v, i) is Some || tail_at(&c.0, &c.1, v, i)
            != Set::<(<A::Post as Finite>::Model, <B::Active as Finite>::Model)>::empty() {
            Some(
                (
                    head_at(&c.0, &c.1, v, i),
                    canon::<(A::Post, B::Active)>(tail_at(&c.0, &c.1, v, i)),
                ),
            )
        } else {
            None
        },
    decreases v.len() - i,
{
    let a = &c.0;
    let b = &c.1;
    if v.len() == i {
        assert(v.take(i) =~= v);
        assert(v.skip(i) =~= Seq::<X>::empty());
        lemma_concat_pre_run(c, v);
        let over = handed(a, b, v, i, i);
        assert forall|e: (<A::Post as Finite>::Model, <B::Active as Finite>::Model)|
            tail_at(a, b, v, i).contains(e) <==> option_set(over).contains(e) by {
            if tail_at(a, b, v, i).contains(e) {
                let k = choose|k: int|
                    i <= k <= v.len() && #[trigger] handed(a, b, v, i, k) == Some(e);
            }
            if option_set(over).contains(e) {
                assert(handed(a, b, v, i, i) == Some(e));
            }
        }
        assert(tail_at(a, b, v, i) =~= option_set(over));
        lemma_canon_option::<(A::Post, B::Active)>(over);
        if over is Some {
            assert(option_set(over).contains(over.unwrap()));
        }
    } else {
        let u = v.drop_last();
        let ch = v.last();
        assert(v =~= u.push(ch));
        lemma_concat_begun(c, u, i);
        lemma_begun_push(c, u, ch, i);
        lemma_begun_push(a, u, ch, i);
        lemma_tail_push(a, b, u, ch, i);
        lemma_canon::<(A::Post, B::Active)>(tail_at(a, b, u, i));
        lemma_image_finite(
            tail_at(a, b, u, i),
            |e: (<A::Post as Finite>::Model, <B::Active as Finite>::Model)|
                both(a.post_step(e.0, ch), b.active_step(e.1, ch)),
        );
        lemma_canon_option::<(A::Post, B::Active)>(concat_handover(a, b, head_at(a, b, v, i)));
        assert(head_at(a, b, v, i) == concat_head_step(a, b, head_at(a, b, u, i), ch));
        if begun(c, u, i) is None {
            assert(concat_tail_moves(a, b, tail_at(a, b, u, i), ch) =~= Set::empty());
            assert(tail_at(a, b, v, i) =~= Set::empty());
        }
    }
}

/// The pairs of `Post` states that a set of pairs leads to by reading `rest`.
pub open spec fn pairs_after<X, A: ThreeFA<X>, B: ThreeFA<X>>(
    a: &A,
    b: &B,
    set: Set<(<A::Post as Finite>::Model, <B::Post as Finite>::Model)>,
    rest: Seq<X>,
) -> Set<(<A::Post as Finite>::Model, <B::Post as Finite>::Model)> {
    image(
        set,
        |e: (<A::Post as Finite>::Model, <B::Post as Finite>::Model)|
            both(post_run(a, Some(e.0), rest), post_run(b, Some(e.1), rest)),
    )
}

proof fn lemma_pairs_after_push<X, A: ThreeFA<X>, B: ThreeFA<X>>(
    a: &A,
    b: &B,
    set: Set<(<A::Post as Finite>::Model, <B::Post as Finite>::Model)>,
    r: Seq<X>,
    ch: X,
)
    ensures
        pairs_after(a, b, set, r.push(ch)) == concat_post_moves(a, b, pairs_after(a, b, set, r), ch),
{
    let rest = r.push(ch);
    let f0 = |e: (<A::Post as Finite>::Model, <B::Post as Finite>::Model)|
        both(post_run(a, Some(e.0), r), post_run(b, Some(e.1), r));
    let f1 = |e: (<A::Post as Finite>::Model, <B::Post as Finite>::Model)|
        both(post_run(a, Some(e.0), rest), post_run(b, Some(e.1), rest));
    let g = |e: (<A::Post as Finite>::Model, <B::Post as Finite>::Model)|
        both(a.post_step(e.0, ch), b.post_step(e.1, ch));
    let lhs = pairs_after(a, b, set, rest);
    let rhs = concat_post_moves(a, b, pairs_after(a, b, set, r), ch);
    assert(rest.drop_last() =~= r);
    assert forall|e: (<A::Post as Finite>::Model, <B::Post as Finite>::Model)|
        lhs.contains(e) implies rhs.contains(e) by {
        let e0 = choose|e0: (<A::Post as Finite>::Model, <B::Post as Finite>::Model)|
            set.contains(e0) && #[trigger] f1(e0) == Some(e);
        let e1 = (post_run(a, Some(e0.0), r).unwrap(), post_run(b, Some(e0.1), r).unwrap());
        assert(f0(e0) == Some(e1));
        assert(pairs_after(a, b, set, r).contains(e1));
        assert(g(e1) == Some(e));
    }
    assert forall|e: (<A::Post as Finite>::Model, <B::Post as Finite>::Model)|
        rhs.contains(e) implies lhs.contains(e) by {
        let e1 = choose|e1: (<A::Post as Finite>::Model, <B::Post as Finite>::Model)|
            pairs_after(a, b, set, r).contains(e1) && #[trigger] g(e1) == Some(e);
        let e0 = choose|e0: (<A::Post as Finite>::Model, <B::Post as Finite>::Model)|
            set.contains(e0) && #[trigger] f0(e0) == Some(e1);
        assert(f1(e0) == Some(e));
    }
    assert(lhs =~= rhs);
}

proof fn lemma_concat_post_run<X: Copy, A: ThreeFA<X>, B: ThreeFA<X>>(
    c: &Concat<A, B>,
    set: Set<(<A::Post as Finite>::Model, <B::Post as Finite>::Model)>,
    rest: Seq<X>,
)
    requires
        set.finite(),
    ensures
        pairs_after(&c.0, &c.1, set, rest).finite(),
        post_run(c, set_state::<(A::Post, B::Post)>(set), rest) == set_state::<(A::Post, B::Post)>(
            pairs_after(&c.0, &c.1, set, rest),
        ),
    decreases rest.len(),
{
    let a = &c.0;
    let b = &c.1;
    lemma_image_finite(
        set,
        |e: (<A::Post as Finite>::Model, <B::Post as Finite>::Model)|
            both(post_run(a, Some(e.0), rest), post_run(b, Some(e.1), rest)),
    );
    if rest.len() == 0 {
        let f = |e: (<A::Post as Finite>::Model, <B::Post as Finite>::Model)|
            both(post_run(a, Some(e.0), rest), post_run(b, Some(e.1), rest));
        assert forall|e: (<A::Post as Finite>::Model, <B::Post as Finite>::Model)|
            set.contains(e) <==> pairs_after(a, b, set, rest).contains(e) by {
            if set.contains(e) {
                assert(f(e) == Some(e));
            }
            if pairs_after(a, b, set, rest).contains(e) {
                let e0 = choose|e0: (<A::Post as Finite>::Model, <B::Post as Finite>::Model)|
                    set.contains(e0) && #[trigger] f(e0) == Some(e);
            }
        }
        assert(pairs_after(a, b, set, rest) =~= set);
    } else {
        let r = rest.drop_last();
        let ch = rest.last();
        assert(rest =~= r.push(ch));
        lemma_concat_post_run(c, set, r);
        lemma_pairs_after_push(a, b, set, r, ch);
        lemma_canon::<(A::Post, B::Post)>(pairs_after(a, b, set, r));
        if pairs_after(a, b, set, r) == Set::<
            (<A::Post as Finite>::Model, <B::Post as Finite>::Model),
        >::empty() {
            assert(concat_post_moves(a, b, pairs_after(a, b, set, r), ch) =~= Set::empty());
        }
    }
}

/// `Concat(A, B)` matches a stretch of the input exactly if `A` matches its
/// first part and `B` the rest of it, for some way of parting it.
pub proof fn lemma_concat_spans<X: Copy, A: ThreeFA<X>, B: ThreeFA<X>>(
    c: &Concat<A, B>,
    w: Seq<X>,
    i: int,
    j: int,
)
    ensures
        spans(c, w, i, j) == exists|k: int|
            #[trigger] spans(&c.0, w, i, k) && spans(&c.1, w, k, j),
{
    let a = &c.0;
    let b = &c.1;
    if 0 <= i <= j <= w.len() {
        let v = w.take(j);
        let rest = w.skip(j);
        lemma_concat_begun(c, v, i);
        let tail = tail_at(a, b, v, i);
        lemma_canon::<(A::Post, B::Active)>(tail);
        let g = |e: (<A::Post as Finite>::Model, <B::Active as Finite>::Model)|
            both(Some(e.0), b.exited(e.1));
        let out = concat_exits(a, b, tail);
        lemma_image_finite(tail, g);
        if begun(c, v, i) is None {
            assert(out =~= Set::empty());
        }
        assert(opt_exited(c, begun(c, v, i)) == set_state::<(A::Post, B::Post)>(out));
        lemma_concat_post_run(c, out, rest);
        let last = pairs_after(a, b, out, rest);
        lemma_canon::<(A::Post, B::Post)>(last);
        assert(ended(c, w, i, j) == set_state::<(A::Post, B::Post)>(last));
        let f = |e: (<A::Post as Finite>::Model, <B::Post as Finite>::Model)|
            both(post_run(a, Some(e.0), rest), post_run(b, Some(e.1), rest));
        assert(v.take(j) =~= v);
        assert(v.skip(j) =~= Seq::<X>::empty());
        if spans(c, w, i, j) {
            let e = choose|e: (<A::Post as Finite>::Model, <B::Post as Finite>::Model)|
                last.contains(e) && a.post_accepting(e.0) && #[trigger] b.post_accepting(e.1);
            let e1 = choose|e1: (<A::Post as Finite>::Model, <B::Post as Finite>::Model)|
                out.contains(e1) && #[trigger] f(e1) == Some(e);
            let e0 = choose|e0: (<A::Post as Finite>::Model, <B::Active as Finite>::Model)|
                tail.contains(e0) && #[trigger] g(e0) == Some(e1);
            let k = choose|k: int|
                i <= k <= v.len() && #[trigger] handed(a, b, v, i, k) == Some(e0);
            lemma_ended_later(a, w, i, k, j);
            assert(ended(a, w, i, k) == Some(e.0));
            assert(ended(b, w, k, j) == Some(e.1));
            assert(spans(a, w, i, k) && spans(b, w, k, j));
        }
        if exists|k: int| #[trigger] spans(a, w, i, k) && spans(b, w, k, j) {
            let k = choose|k: int| #[trigger] spans(a, w, i, k) && spans(b, w, k, j);
            lemma_ended_later(a, w, i, k, j);
            let p = ended(a, w, i, k).unwrap();
            let q = ended(b, w, k, j).unwrap();
            if ended(a, v, i, k) is None {
                lemma_post_run_gone(a, rest);
            }
            if opt_exited(b, begun(b, v, k)) is None {
                lemma_post_run_gone(b, rest);
            }
            let first = ended(a, v, i, k).unwrap();
            let q0 = opt_exited(b, begun(b, v, k)).unwrap();
            let t0 = begun(b, v, k).unwrap();
            assert(handed(a, b, v, i, k) == Some((first, t0)));
            assert(tail.contains((first, t0)));
            assert(g((first, t0)) == Some((first, q0)));
            assert(out.contains((first, q0)));
            assert(f((first, q0)) == Some((p, q)));
            assert(last.contains((p, q)));
            let e = (p, q);
            assert(last.contains(e) && a.post_accepting(e.0) && b.post_accepting(e.1));
            assert(concat_any_accepting(a, b, last));
        }
    } else {
        if exists|k: int| #[trigger] spans(a, w, i, k) && spans(b, w, k, j) {
            let k = choose|k: int| #[trigger] spans(a, w, i, k) && spans(b, w, k, j);
        }
    }
}

} // verus!
