//! The languages of the combinators, in terms of the languages of their operands.
use vstd::prelude::*;
use crate::dfa::{Dfa, accepts, run};
use crate::dfa::advance::{
    successors,
    any_accepting,
    lemma_successors_hold,
    lemma_successors_origin,
};
use crate::dfa::concat::concat_spawn;
use crate::dfa::plus::plus_restart;
use crate::finite::Finite;
use crate::regex::{And, Concat, Iff, Not, Or, Plus};
use crate::sorted::{canon, lemma_canon, lemma_image_finite};

verus! {

/// The complement follows its operand for as long as the operand is alive.
pub proof fn lemma_not_run<X, A: Dfa<X>>(n: &Not<A>, w: Seq<X>)
    ensures
        run(n, w) == Some(run(&n.0, w)),
    decreases w.len(),
{
    if w.len() > 0 {
        lemma_not_run(n, w.drop_last());
    }
}

/// `Not(A)` accepts exactly the words that `A` does not accept.
pub proof fn lemma_not_language<X, A: Dfa<X>>(n: &Not<A>, w: Seq<X>)
    ensures
        accepts(n, w) == !accepts(&n.0, w),
{
    lemma_not_run(n, w);
}

/// Two operands side by side each follow their own run; the pair is gone once
/// both runs are.
pub proof fn lemma_or_run<X: Copy, A: Dfa<X>, B: Dfa<X>>(o: &Or<A, B>, w: Seq<X>)
    ensures
        run(o, w) == if run(&o.0, w) is Some || run(&o.1, w) is Some {
            Some((run(&o.0, w), run(&o.1, w)))
        } else {
            None
        },
    decreases w.len(),
{
    if w.len() > 0 {
        lemma_or_run(o, w.drop_last());
    }
}

/// `Or(A, B)` accepts exactly the words that `A` or `B` accepts.
pub proof fn lemma_or_language<X: Copy, A: Dfa<X>, B: Dfa<X>>(o: &Or<A, B>, w: Seq<X>)
    ensures
        accepts(o, w) == (accepts(&o.0, w) || accepts(&o.1, w)),
{
    lemma_or_run(o, w);
}

/// An intersection follows both operands for as long as both are alive.
pub proof fn lemma_and_run<X: Copy, A: Dfa<X>, B: Dfa<X>>(o: &And<A, B>, w: Seq<X>)
    ensures
        run(o, w) == match (run(&o.0, w), run(&o.1, w)) {
            (Some(a), Some(b)) => Some((a, b)),
            _ => None,
        },
    decreases w.len(),
{
    if w.len() > 0 {
        lemma_and_run(o, w.drop_last());
    }
}

/// `And(A, B)` accepts exactly the words that both `A` and `B` accept.
pub proof fn lemma_and_language<X: Copy, A: Dfa<X>, B: Dfa<X>>(o: &And<A, B>, w: Seq<X>)
    ensures
        accepts(o, w) == (accepts(&o.0, w) && accepts(&o.1, w)),
{
    lemma_and_run(o, w);
}

/// A biconditional follows both operands and never runs out.
pub proof fn lemma_iff_run<X: Copy, A: Dfa<X>, B: Dfa<X>>(o: &Iff<A, B>, w: Seq<X>)
    ensures
        run(o, w) == Some((run(&o.0, w), run(&o.1, w))),
    decreases w.len(),
{
    if w.len() > 0 {
        lemma_iff_run(o, w.drop_last());
    }
}

/// `Iff(A, B)` accepts exactly the words that `A` and `B` both accept or both reject.
pub proof fn lemma_iff_language<X: Copy, A: Dfa<X>, B: Dfa<X>>(o: &Iff<A, B>, w: Seq<X>)
    ensures
        accepts(o, w) == (accepts(&o.0, w) == accepts(&o.1, w)),
{
    lemma_iff_run(o, w);
}

/// `Not(Iff(A, B))` accepts exactly the words on which `A` and `B` differ.
pub proof fn lemma_difference_language<X: Copy, A: Dfa<X>, B: Dfa<X>>(
    d: &Not<Iff<A, B>>,
    w: Seq<X>,
)
    ensures
        accepts(d, w) == (accepts(&d.0.0, w) != accepts(&d.0.1, w)),
{
    lemma_not_language(d, w);
    lemma_iff_language(&d.0, w);
}

/// The states of the second operand of a concatenation after `w`: one for
/// each way of splitting `w` into a word that the first operand accepts and a
/// rest that the second operand can read.
pub open spec fn concat_states<X: Copy, A: Dfa<X>, B: Dfa<X>>(o: &Concat<A, B>, w: Seq<X>) -> Set<
    <B::State as Finite>::Model,
> {
    Set::new(
        |t: <B::State as Finite>::Model|
            exists|i: int|
                0 <= i <= w.len() && accepts(&o.0, w.take(i)) && run(&o.1, #[trigger] w.skip(i))
                    == Some(t),
    )
}

/// How the states of the second operand change with one more symbol.
proof fn lemma_concat_states_push<X: Copy, A: Dfa<X>, B: Dfa<X>>(o: &Concat<A, B>, u: Seq<X>, c: X)
    ensures
        concat_states(o, u.push(c)) == concat_spawn(
            &o.0,
            &o.1,
            run(&o.0, u.push(c)),
            successors(&o.1, concat_states(o, u), c),
        ),
{
    let w = u.push(c);
    let lhs = concat_states(o, w);
    let moved = successors(&o.1, concat_states(o, u), c);
    let rhs = concat_spawn(&o.0, &o.1, run(&o.0, w), moved);
    assert forall|t: <B::State as Finite>::Model| lhs.contains(t) implies rhs.contains(t) by {
        let i = choose|i: int|
            0 <= i <= w.len() && accepts(&o.0, w.take(i)) && run(&o.1, #[trigger] w.skip(i))
                == Some(t);
        if i == w.len() {
            assert(w.take(i) =~= w);
            assert(w.skip(i) =~= Seq::<X>::empty());
        } else {
            assert(w.take(i) =~= u.take(i));
            assert(w.skip(i) =~= u.skip(i).push(c));
            assert(w.skip(i).drop_last() =~= u.skip(i));
            let t0 = run(&o.1, u.skip(i)).unwrap();
            assert(concat_states(o, u).contains(t0));
            assert(o.1.step(t0, c) == Some(t));
            lemma_successors_hold(&o.1, concat_states(o, u), c, t0);
        }
    }
    assert forall|t: <B::State as Finite>::Model| rhs.contains(t) implies lhs.contains(t) by {
        if moved.contains(t) {
            let t0 = lemma_successors_origin(&o.1, concat_states(o, u), c, t);
            let i = choose|i: int|
                0 <= i <= u.len() && accepts(&o.0, u.take(i)) && run(&o.1, #[trigger] u.skip(i))
                    == Some(t0);
            assert(w.take(i) =~= u.take(i));
            assert(w.skip(i) =~= u.skip(i).push(c));
            assert(w.skip(i).drop_last() =~= u.skip(i));
            assert(run(&o.1, w.skip(i)) == Some(t));
        } else {
            let i = w.len() as int;
            assert(w.take(i) =~= w);
            assert(w.skip(i) =~= Seq::<X>::empty());
            assert(run(&o.1, w.skip(i)) == Some(t));
        }
    }
    assert(lhs =~= rhs);
}

/// The state of a concatenation after `w`: the state of the first operand, if
/// it is still alive, and the states of the second operand for all the ways
/// of splitting `w`. The run is gone once nothing is left of either.
pub proof fn lemma_concat_run<X: Copy, A: Dfa<X>, B: Dfa<X>>(o: &Concat<A, B>, w: Seq<X>)
    ensures
        concat_states(o, w).finite(),
        run(o, w) == if run(&o.0, w) is Some || concat_states(o, w) != Set::<
            <B::State as Finite>::Model,
        >::empty() {
            Some((run(&o.0, w), canon::<B::State>(concat_states(o, w))))
        } else {
            None
        },
    decreases w.len(),
{
    if w.len() == 0 {
        let init = concat_spawn(&o.0, &o.1, Some(o.0.start()), Set::empty());
        assert forall|t: <B::State as Finite>::Model| concat_states(o, w).contains(
            t,
        ) implies init.contains(t) by {
            let i = choose|i: int|
                0 <= i <= w.len() && accepts(&o.0, w.take(i)) && run(&o.1, #[trigger] w.skip(i))
                    == Some(t);
            assert(w.take(i) =~= w);
            assert(w.skip(i) =~= w);
        }
        assert forall|t: <B::State as Finite>::Model| init.contains(t) implies concat_states(
            o,
            w,
        ).contains(t) by {
            assert(w.take(0) =~= w);
            assert(w.skip(0) =~= w);
            assert(run(&o.1, w.skip(0)) == Some(t));
        }
        assert(concat_states(o, w) =~= init);
    } else {
        let u = w.drop_last();
        let c = w.last();
        assert(w =~= u.push(c));
        lemma_concat_run(o, u);
        lemma_concat_states_push(o, u, c);
        lemma_image_finite(concat_states(o, u), |s: <B::State as Finite>::Model| o.1.step(s, c));
        lemma_canon::<B::State>(concat_states(o, u));
        if run(o, u) is None {
            assert(successors(&o.1, concat_states(o, u), c) =~= Set::empty());
        }
    }
}

/// `Concat(A, B)` accepts exactly the words that consist of a word that `A`
/// accepts followed by a word that `B` accepts.
pub proof fn lemma_concat_language<X: Copy, A: Dfa<X>, B: Dfa<X>>(o: &Concat<A, B>, w: Seq<X>)
    ensures
        accepts(o, w) == exists|i: int|
            0 <= i <= w.len() && accepts(&o.0, w.take(i)) && accepts(&o.1, #[trigger] w.skip(i)),
{
    lemma_concat_run(o, w);
    lemma_canon::<B::State>(concat_states(o, w));
    let states = concat_states(o, w);
    if accepts(o, w) {
        let t = choose|t: <B::State as Finite>::Model|
            states.contains(t) && #[trigger] o.1.accepting(t);
        let i = choose|i: int|
            0 <= i <= w.len() && accepts(&o.0, w.take(i)) && run(&o.1, #[trigger] w.skip(i))
                == Some(t);
        assert(accepts(&o.1, w.skip(i)));
    }
    if exists|i: int|
        0 <= i <= w.len() && accepts(&o.0, w.take(i)) && accepts(&o.1, #[trigger] w.skip(i)) {
        let i = choose|i: int|
            0 <= i <= w.len() && accepts(&o.0, w.take(i)) && accepts(&o.1, #[trigger] w.skip(i));
        let t = run(&o.1, w.skip(i)).unwrap();
        assert(states.contains(t));
        assert(o.1.accepting(t));
        assert(any_accepting(&o.1, states));
    }
}

/// Membership in the language of one or more repetitions of `a`: the word is
/// accepted by `a`, or it consists of one or more repetitions followed by a
/// word that `a` accepts.
pub open spec fn repeats<X, A: Dfa<X>>(a: &A, w: Seq<X>) -> bool
    decreases w.len(),
{
    accepts(a, w) || exists|i: int|
        0 < i < w.len() && repeats(a, #[trigger] w.take(i)) && accepts(a, w.skip(i))
}

/// Whether `w` is one or more words in a row, each of which `a` accepts.
pub open spec fn one_or_more<X, A: Dfa<X>>(a: &A, w: Seq<X>) -> bool {
    exists|parts: Seq<Seq<X>>|
        parts.len() >= 1 && #[trigger] parts.flatten() == w && forall|k: int|
            0 <= k < parts.len() ==> accepts(a, #[trigger] parts[k])
}

proof fn lemma_repeats_append<X, A: Dfa<X>>(a: &A, u: Seq<X>, p: Seq<X>)
    requires
        repeats(a, u),
        accepts(a, p),
    ensures
        repeats(a, u + p),
{
    if p.len() == 0 {
        assert(u + p =~= u);
    } else if u.len() == 0 {
        assert(u + p =~= p);
    } else {
        let i = u.len() as int;
        assert((u + p).take(i) =~= u);
        assert((u + p).skip(i) =~= p);
    }
}

proof fn lemma_repeats_parts<X, A: Dfa<X>>(a: &A, w: Seq<X>) -> (parts: Seq<Seq<X>>)
    requires
        repeats(a, w),
    ensures
        parts.len() >= 1,
        parts.flatten() == w,
        forall|k: int| 0 <= k < parts.len() ==> accepts(a, #[trigger] parts[k]),
    decreases w.len(),
{
    if accepts(a, w) {
        let parts = seq![w];
        parts.lemma_flatten_one_element();
        parts
    } else {
        let i = choose|i: int|
            0 < i < w.len() && repeats(a, #[trigger] w.take(i)) && accepts(a, w.skip(i));
        let before = lemma_repeats_parts(a, w.take(i));
        let parts = before.push(w.skip(i));
        Seq::lemma_flatten_push(before, w.skip(i));
        assert(w.take(i) + w.skip(i) =~= w);
        parts
    }
}

proof fn lemma_parts_repeats<X, A: Dfa<X>>(a: &A, parts: Seq<Seq<X>>)
    requires
        parts.len() >= 1,
        forall|k: int| 0 <= k < parts.len() ==> accepts(a, #[trigger] parts[k]),
    ensures
        repeats(a, parts.flatten()),
    decreases parts.len(),
{
    if parts.len() == 1 {
        parts.lemma_flatten_one_element();
        assert(accepts(a, parts[0]));
    } else {
        let before = parts.drop_last();
        let p = parts.last();
        assert(parts =~= before.push(p));
        Seq::lemma_flatten_push(before, p);
        assert forall|k: int| 0 <= k < before.len() implies accepts(a, #[trigger] before[k]) by {
            assert(before[k] == parts[k]);
        }
        lemma_parts_repeats(a, before);
        assert(accepts(a, parts[parts.len() - 1]));
        lemma_repeats_append(a, before.flatten(), p);
    }
}

/// The words made of repetitions are the words that are one or more accepted
/// words in a row.
pub proof fn lemma_repeats_one_or_more<X, A: Dfa<X>>(a: &A, w: Seq<X>)
    ensures
        repeats(a, w) == one_or_more(a, w),
{
    if repeats(a, w) {
        let parts = lemma_repeats_parts(a, w);
        assert(parts.flatten() == w);
    }
    if one_or_more(a, w) {
        let parts = choose|parts: Seq<Seq<X>>|
            parts.len() >= 1 && #[trigger] parts.flatten() == w && forall|k: int|
                0 <= k < parts.len() ==> accepts(a, #[trigger] parts[k]);
        lemma_parts_repeats(a, parts);
    }
}

/// The states of a repetition after `w`: one for each way of splitting `w`
/// into repetitions that are complete and a rest that the operand can read.
pub open spec fn plus_states<X: Copy, A: Dfa<X>>(o: &Plus<A>, w: Seq<X>) -> Set<
    <A::State as Finite>::Model,
> {
    Set::new(
        |t: <A::State as Finite>::Model|
            exists|i: int|
                0 <= i <= w.len() && (i == 0 || repeats(&o.0, w.take(i))) && run(
                    &o.0,
                    #[trigger] w.skip(i),
                ) == Some(t),
    )
}

/// A word is made of repetitions exactly if it splits into complete
/// repetitions, or none, and a last word that the operand accepts.
proof fn lemma_repeats_split<X, A: Dfa<X>>(a: &A, w: Seq<X>)
    ensures
        repeats(a, w) == exists|i: int|
            0 <= i <= w.len() && (i == 0 || repeats(a, w.take(i))) && accepts(
                a,
                #[trigger] w.skip(i),
            ),
{
    if repeats(a, w) {
        if accepts(a, w) {
            assert(w.skip(0) =~= w);
            assert(accepts(a, w.skip(0)));
        } else {
            let i = choose|i: int|
                0 < i < w.len() && repeats(a, #[trigger] w.take(i)) && accepts(a, w.skip(i));
            assert(accepts(a, w.skip(i)));
        }
    }
    if exists|i: int|
        0 <= i <= w.len() && (i == 0 || repeats(a, w.take(i))) && accepts(a, #[trigger] w.skip(i)) {
        let i = choose|i: int|
            0 <= i <= w.len() && (i == 0 || repeats(a, w.take(i))) && accepts(
                a,
                #[trigger] w.skip(i),
            );
        if i == 0 {
            assert(w.skip(0) =~= w);
        } else if i == w.len() {
            assert(w.take(i) =~= w);
        } else {
            assert(repeats(a, w.take(i)));
        }
    }
}

proof fn lemma_plus_states_push<X: Copy, A: Dfa<X>>(o: &Plus<A>, u: Seq<X>, c: X)
    ensures
        plus_states(o, u.push(c)) == plus_restart(&o.0, successors(&o.0, plus_states(o, u), c)),
{
    let w = u.push(c);
    let lhs = plus_states(o, w);
    let moved = successors(&o.0, plus_states(o, u), c);
    let rhs = plus_restart(&o.0, moved);
    // the states that moved are those of the splits that end before the new symbol
    assert forall|t: <A::State as Finite>::Model| moved.contains(t) <==> exists|i: int|
        0 <= i <= u.len() && (i == 0 || repeats(&o.0, w.take(i))) && run(
            &o.0,
            #[trigger] w.skip(i),
        ) == Some(t) by {
        if moved.contains(t) {
            let t0 = lemma_successors_origin(&o.0, plus_states(o, u), c, t);
            let i = choose|i: int|
                0 <= i <= u.len() && (i == 0 || repeats(&o.0, u.take(i))) && run(
                    &o.0,
                    #[trigger] u.skip(i),
                ) == Some(t0);
            assert(w.take(i) =~= u.take(i));
            assert(w.skip(i) =~= u.skip(i).push(c));
            assert(w.skip(i).drop_last() =~= u.skip(i));
            assert(run(&o.0, w.skip(i)) == Some(t));
        }
        if exists|i: int|
            0 <= i <= u.len() && (i == 0 || repeats(&o.0, w.take(i))) && run(
                &o.0,
                #[trigger] w.skip(i),
            ) == Some(t) {
            let i = choose|i: int|
                0 <= i <= u.len() && (i == 0 || repeats(&o.0, w.take(i))) && run(
                    &o.0,
                    #[trigger] w.skip(i),
                ) == Some(t);
            assert(w.take(i) =~= u.take(i));
            assert(w.skip(i) =~= u.skip(i).push(c));
            assert(w.skip(i).drop_last() =~= u.skip(i));
            let t0 = run(&o.0, u.skip(i)).unwrap();
            assert(plus_states(o, u).contains(t0));
            assert(o.0.step(t0, c) == Some(t));
            lemma_successors_hold(&o.0, plus_states(o, u), c, t0);
        }
    }
    // one of them is accepting exactly if the word is made of repetitions
    assert(any_accepting(&o.0, moved) == repeats(&o.0, w)) by {
        lemma_repeats_split(&o.0, w);
        if any_accepting(&o.0, moved) {
            let t = choose|t: <A::State as Finite>::Model|
                moved.contains(t) && #[trigger] o.0.accepting(t);
            let i = choose|i: int|
                0 <= i <= u.len() && (i == 0 || repeats(&o.0, w.take(i))) && run(
                    &o.0,
                    #[trigger] w.skip(i),
                ) == Some(t);
            assert(accepts(&o.0, w.skip(i)));
        }
        if repeats(&o.0, w) {
            let i = choose|i: int|
                0 <= i <= w.len() && (i == 0 || repeats(&o.0, w.take(i))) && accepts(
                    &o.0,
                    #[trigger] w.skip(i),
                );
            if i == w.len() {
                // the last word is empty: take the split of the repetitions before it
                assert(w.take(i) =~= w);
                if accepts(&o.0, w) {
                    assert(w.skip(0) =~= w);
                    let t = run(&o.0, w.skip(0)).unwrap();
                    assert(moved.contains(t));
                    assert(o.0.accepting(t));
                } else {
                    let j = choose|j: int|
                        0 < j < w.len() && repeats(&o.0, #[trigger] w.take(j)) && accepts(
                            &o.0,
                            w.skip(j),
                        );
                    let t = run(&o.0, w.skip(j)).unwrap();
                    assert(moved.contains(t));
                    assert(o.0.accepting(t));
                }
            } else {
                let t = run(&o.0, w.skip(i)).unwrap();
                assert(moved.contains(t));
                assert(o.0.accepting(t));
            }
        }
    }
    assert forall|t: <A::State as Finite>::Model| lhs.contains(t) implies rhs.contains(t) by {
        let i = choose|i: int|
            0 <= i <= w.len() && (i == 0 || repeats(&o.0, w.take(i))) && run(
                &o.0,
                #[trigger] w.skip(i),
            ) == Some(t);
        if i == w.len() {
            assert(w.take(i) =~= w);
            assert(w.skip(i) =~= Seq::<X>::empty());
        }
    }
    assert forall|t: <A::State as Finite>::Model| rhs.contains(t) implies lhs.contains(t) by {
        if !moved.contains(t) {
            let i = w.len() as int;
            assert(w.take(i) =~= w);
            assert(w.skip(i) =~= Seq::<X>::empty());
            assert(run(&o.0, w.skip(i)) == Some(t));
        }
    }
    assert(lhs =~= rhs);
}

/// The state of a repetition after `w`: the states of the operand for all the
/// ways of splitting `w`. The run is gone once none is left.
pub proof fn lemma_plus_run<X: Copy, A: Dfa<X>>(o: &Plus<A>, w: Seq<X>)
    ensures
        plus_states(o, w).finite(),
        run(o, w) == if plus_states(o, w) != Set::<<A::State as Finite>::Model>::empty() {
            Some(canon::<A::State>(plus_states(o, w)))
        } else {
            None
        },
    decreases w.len(),
{
    if w.len() == 0 {
        let init = set![o.0.start()];
        assert forall|t: <A::State as Finite>::Model| plus_states(o, w).contains(
            t,
        ) implies init.contains(t) by {
            let i = choose|i: int|
                0 <= i <= w.len() && (i == 0 || repeats(&o.0, w.take(i))) && run(
                    &o.0,
                    #[trigger] w.skip(i),
                ) == Some(t);
            assert(w.skip(i) =~= w);
        }
        assert forall|t: <A::State as Finite>::Model| init.contains(t) implies plus_states(
            o,
            w,
        ).contains(t) by {
            assert(w.skip(0) =~= w);
            assert(run(&o.0, w.skip(0)) == Some(t));
        }
        assert(plus_states(o, w) =~= init);
        assert(init.contains(o.0.start()));
        assert(seq![o.0.start()].to_set() =~= init) by {
            assert(seq![o.0.start()][0] == o.0.start());
            assert(seq![o.0.start()].contains(o.0.start()));
        }
        assert(crate::sorted::strictly_sorted::<A::State>(seq![o.0.start()]));
        crate::sorted::lemma_canon_of_sorted::<A::State>(seq![o.0.start()]);
    } else {
        let u = w.drop_last();
        let c = w.last();
        assert(w =~= u.push(c));
        lemma_plus_run(o, u);
        lemma_plus_states_push(o, u, c);
        lemma_image_finite(plus_states(o, u), |s: <A::State as Finite>::Model| o.0.step(s, c));
        lemma_canon::<A::State>(plus_states(o, u));
        if run(o, u) is None {
            assert(successors(&o.0, plus_states(o, u), c) =~= Set::empty());
        }
    }
}

/// `Plus(A)` accepts exactly the words that are one or more words in a row,
/// each of which `A` accepts.
pub proof fn lemma_plus_language<X: Copy, A: Dfa<X>>(o: &Plus<A>, w: Seq<X>)
    ensures
        accepts(o, w) == one_or_more(&o.0, w),
        accepts(o, w) == repeats(&o.0, w),
{
    lemma_repeats_one_or_more(&o.0, w);
    lemma_plus_run(o, w);
    lemma_canon::<A::State>(plus_states(o, w));
    lemma_repeats_split(&o.0, w);
    let states = plus_states(o, w);
    if accepts(o, w) {
        let t = choose|t: <A::State as Finite>::Model|
            states.contains(t) && #[trigger] o.0.accepting(t);
        let i = choose|i: int|
            0 <= i <= w.len() && (i == 0 || repeats(&o.0, w.take(i))) && run(
                &o.0,
                #[trigger] w.skip(i),
            ) == Some(t);
        assert(accepts(&o.0, w.skip(i)));
    }
    if repeats(&o.0, w) {
        let i = choose|i: int|
            0 <= i <= w.len() && (i == 0 || repeats(&o.0, w.take(i))) && accepts(
                &o.0,
                #[trigger] w.skip(i),
            );
        let t = run(&o.0, w.skip(i)).unwrap();
        assert(states.contains(t));
        assert(o.0.accepting(t));
        assert(any_accepting(&o.0, states));
    }
}

} // verus!
