//! Deciding whether an automaton accepts nothing, and whether two automata
//! accept the same words.
//!
//! The states are explored breadth first, level by level: the frontier of
//! level `k` holds, with a word of length `k` that leads to it, each state that
//! was first met at that level. The first accepting state that is found thus
//! comes with a shortest accepted word.
use vstd::prelude::*;
use crate::algebra::lemma_difference_language;
use crate::dfa::{Dfa, accepts, over, run, closed, lemma_closed_holds_run};
use crate::finite::Finite;
use crate::ordmap::OrdMap;
use crate::ordset::OrdSet;
use crate::regex::{Iff, Not};

verus! {

/// A state that the search is done with: it is not accepting, and the states
/// that the symbols of the alphabet lead to from it have all been met.
pub open spec fn settled<X, D: Dfa<X>>(
    d: &D,
    alphabet: Seq<X>,
    met: Set<<D::State as Finite>::Model>,
    s: <D::State as Finite>::Model,
) -> bool {
    &&& !d.accepting(s)
    &&& forall|c: X|
        alphabet.contains(c) && (#[trigger] d.step(s, c)) is Some ==> met.contains(
            d.step(s, c).unwrap(),
        )
}

/// Each state of the frontier comes with a word over the alphabet, of length
/// `k`, that leads to it.
pub open spec fn frontier_ok<X, D: Dfa<X>>(
    d: &D,
    alphabet: Seq<X>,
    frontier: OrdMap<D::State, Vec<X>>,
    k: int,
) -> bool {
    forall|s: <D::State as Finite>::Model| #[trigger]
        frontier.dom().contains(s) ==> over(frontier.as_map()[s]@, alphabet)
            && frontier.as_map()[s]@.len() == k && run(d, frontier.as_map()[s]@) == Some(s)
}

/// The word `msg` followed by `c`.
pub fn extend_word<X: Copy>(msg: &Vec<X>, c: X) -> (out: Vec<X>)
    ensures
        out@ == msg@.push(c),
{
    let mut out: Vec<X> = Vec::new();
    let n = msg.len();
    let mut i: usize = 0;
    while i < n
        invariant
            n == msg@.len(),
            i <= n,
            out@ == msg@.take(i as int),
        decreases n - i,
    {
        out.push(msg[i]);
        proof {
            assert(msg@.take(i as int).push(msg@[i as int]) =~= msg@.take(i + 1));
        }
        i += 1;
    }
    proof {
        assert(msg@.take(n as int) =~= msg@);
    }
    out.push(c);
    out
}

/// A copy of the word `msg`.
pub fn copy_word<X: Copy>(msg: &Vec<X>) -> (out: Vec<X>)
    ensures
        out@ == msg@,
{
    let mut out: Vec<X> = Vec::new();
    let n = msg.len();
    let mut i: usize = 0;
    while i < n
        invariant
            n == msg@.len(),
            i <= n,
            out@ == msg@.take(i as int),
        decreases n - i,
    {
        out.push(msg[i]);
        proof {
            assert(msg@.take(i as int).push(msg@[i as int]) =~= msg@.take(i + 1));
        }
        i += 1;
    }
    proof {
        assert(msg@.take(n as int) =~= msg@);
    }
    out
}

/// Follows every symbol of the alphabet from `state`; each state that is met
/// for the first time joins the next frontier, with `msg` and the symbol that
/// led to it.
fn expand<X: Copy, D: Dfa<X>>(
    dfa: &D,
    alphabet: &[X],
    state: &D::State,
    msg: &Vec<X>,
    visited: &mut OrdSet<D::State>,
    next: &mut OrdMap<D::State, Vec<X>>,
    k: Ghost<int>,
)
    requires
        dfa.dfa_wf(),
        state.wf(),
        over(msg@, alphabet@),
        msg@.len() == k@,
        run(dfa, msg@) == Some(state.model()),
        old(visited).wf(),
        old(next).wf(),
        frontier_ok(dfa, alphabet@, *old(next), k@ + 1),
        old(next).dom().subset_of(old(visited).elems()),
        old(visited).elems().subset_of(<D::State as Finite>::domain()),
    ensures
        final(visited).wf(),
        final(next).wf(),
        frontier_ok(dfa, alphabet@, *final(next), k@ + 1),
        final(next).dom().subset_of(final(visited).elems()),
        final(visited).elems().subset_of(<D::State as Finite>::domain()),
        old(visited).elems().subset_of(final(visited).elems()),
        old(next).dom().subset_of(final(next).dom()),
        forall|s: <D::State as Finite>::Model|
            final(visited).elems().contains(s) && !old(visited).elems().contains(s)
                ==> final(next).dom().contains(s),
        final(visited)@.len() - old(visited)@.len()
            == final(next).keys@.len() - old(next).keys@.len(),
        forall|c: X|
            alphabet@.contains(c) && (#[trigger] dfa.step(state.model(), c)) is Some
                ==> final(visited).elems().contains(dfa.step(state.model(), c).unwrap()),
{
    let ghost sm = state.model();
    let ghost visited0 = *visited;
    let ghost next0 = *next;
    let n = alphabet.len();
    let mut j: usize = 0;
    proof {
        assert(alphabet@.take(0) =~= Seq::<X>::empty());
    }
    while j < n
        invariant
            dfa.dfa_wf(),
            state.wf(),
            sm == state.model(),
            over(msg@, alphabet@),
            msg@.len() == k@,
            run(dfa, msg@) == Some(sm),
            n == alphabet@.len(),
            j <= n,
            visited.wf(),
            next.wf(),
            frontier_ok(dfa, alphabet@, *next, k@ + 1),
            next.dom().subset_of(visited.elems()),
            visited.elems().subset_of(<D::State as Finite>::domain()),
            visited0.elems().subset_of(visited.elems()),
            next0.dom().subset_of(next.dom()),
            forall|s: <D::State as Finite>::Model|
                visited.elems().contains(s) && !visited0.elems().contains(s) ==> next.dom().contains(
                    s,
                ),
            visited@.len() - visited0@.len() == next.keys@.len() - next0.keys@.len(),
            forall|c: X|
                alphabet@.take(j as int).contains(c) && (#[trigger] dfa.step(sm, c)) is Some
                    ==> visited.elems().contains(dfa.step(sm, c).unwrap()),
        decreases n - j,
    {
        let c = alphabet[j];
        let ghost seen = alphabet@.take(j as int);
        let ghost more = alphabet@.take(j + 1);
        let ghost next1 = *next;
        proof {
            assert(alphabet@.contains(c)) by {
                assert(alphabet@[j as int] == c);
            }
            assert forall|x: X| more.contains(x) implies seen.contains(x) || x == c by {
                let i = choose|i: int| 0 <= i < more.len() && more[i] == x;
                if i < j {
                    assert(seen[i] == x);
                }
            }
        }
        match dfa.next(state.duplicate(), c) {
            Some(t) => {
                proof {
                    t.lemma_in_domain();
                }
                if visited.insert(t.duplicate()) {
                    let word = extend_word(msg, c);
                    proof {
                        assert(word@.drop_last() =~= msg@);
                        assert(word@.last() == c);
                        assert(over(word@, alphabet@)) by {
                            assert forall|i: int| 0 <= i < word@.len() implies alphabet@.contains(
                                #[trigger] word@[i],
                            ) by {
                                if i < msg@.len() {
                                    assert(word@[i] == msg@[i]);
                                }
                            }
                        }
                        assert(run(dfa, word@) == Some(t.model()));
                    }
                    next.insert(t, word);
                    proof {
                        assert forall|s: <D::State as Finite>::Model| #[trigger]
                            next.dom().contains(s) implies over(next.as_map()[s]@, alphabet@)
                            && next.as_map()[s]@.len() == k@ + 1 && run(dfa, next.as_map()[s]@)
                            == Some(s) by {
                            if s != t.model() {
                                assert(next1.dom().contains(s));
                            }
                        }
                    }
                }
            },
            None => {},
        }
        j += 1;
    }
    proof {
        assert(alphabet@.take(n as int) =~= alphabet@);
    }
}

/// Decides whether `dfa` accepts no word over `alphabet`. If it accepts one,
/// the error holds a shortest such word.
pub fn is_empty<X: Copy, D: Dfa<X>>(dfa: D, alphabet: &[X]) -> (r: Result<(), Vec<X>>)
    requires
        dfa.dfa_wf(),
    ensures
        match r {
            Ok(_) => forall|w: Seq<X>| over(w, alphabet@) ==> !accepts(&dfa, w),
            Err(word) => {
                &&& over(word@, alphabet@)
                &&& accepts(&dfa, word@)
                &&& forall|u: Seq<X>|
                    over(u, alphabet@) && accepts(&dfa, u) ==> word@.len() <= u.len()
            },
        },
{
    let mut visited: OrdSet<D::State> = OrdSet::new();
    let mut next: OrdMap<D::State, Vec<X>> = OrdMap::new();
    next.insert(dfa.initial(), Vec::new());
    let ghost mut k: int = 0;
    let ghost start = dfa.start();
    proof {
        <D::State as Finite>::lemma_domain_finite();
        assert(over(Seq::<X>::empty(), alphabet@));
        assert(next.dom() =~= set![start]);
    }
    while !next.is_empty()
        invariant
            dfa.dfa_wf(),
            start == dfa.start(),
            visited.wf(),
            next.wf(),
            k >= 0,
            <D::State as Finite>::domain().finite(),
            visited.elems().subset_of(<D::State as Finite>::domain()),
            frontier_ok(&dfa, alphabet@, next, k),
            forall|w: Seq<X>| over(w, alphabet@) && w.len() < k ==> !accepts(&dfa, w),
            forall|w: Seq<X>|
                over(w, alphabet@) && w.len() == k && (#[trigger] run(&dfa, w)) is Some
                    ==> next.dom().contains(run(&dfa, w).unwrap()) || settled(
                    &dfa,
                    alphabet@,
                    visited.elems(),
                    run(&dfa, w).unwrap(),
                ),
            forall|s: <D::State as Finite>::Model|
                visited.elems().contains(s) || s == start ==> next.dom().contains(s) || #[trigger] settled(
                    &dfa,
                    alphabet@,
                    visited.elems(),
                    s,
                ),
        decreases <D::State as Finite>::domain().len() - visited@.len(), next.keys@.len(),
    {
        let frontier = next;
        next = OrdMap::new();
        let ghost visited0 = visited;
        let n = frontier.len();
        let mut i: usize = 0;
        proof {
            crate::sorted::lemma_sorted_no_duplicates::<D::State>(visited@);
            visited@.unique_seq_to_set();
            vstd::set_lib::lemma_len_subset(visited.elems(), <D::State as Finite>::domain());
        }
        while i < n
            invariant
                dfa.dfa_wf(),
                start == dfa.start(),
                visited.wf(),
                next.wf(),
                frontier.wf(),
                visited0.wf(),
                k >= 0,
                n == frontier.keys@.len(),
                i <= n,
                <D::State as Finite>::domain().finite(),
                visited.elems().subset_of(<D::State as Finite>::domain()),
                visited0.elems().subset_of(visited.elems()),
                next.dom().subset_of(visited.elems()),
                frontier_ok(&dfa, alphabet@, frontier, k),
                frontier_ok(&dfa, alphabet@, next, k + 1),
                forall|s: <D::State as Finite>::Model|
                    visited.elems().contains(s) && !visited0.elems().contains(s)
                        ==> next.dom().contains(s),
                visited@.len() == visited0@.len() + next.keys@.len(),
                forall|idx: int|
                    0 <= idx < i ==> settled(
                        &dfa,
                        alphabet@,
                        visited.elems(),
                        #[trigger] frontier.keys@[idx],
                    ),
                forall|w: Seq<X>| over(w, alphabet@) && w.len() < k ==> !accepts(&dfa, w),
                forall|w: Seq<X>|
                    over(w, alphabet@) && w.len() == k && (#[trigger] run(&dfa, w)) is Some
                        ==> frontier.dom().contains(run(&dfa, w).unwrap()) || settled(
                        &dfa,
                        alphabet@,
                        visited0.elems(),
                        run(&dfa, w).unwrap(),
                    ),
                forall|s: <D::State as Finite>::Model|
                    visited0.elems().contains(s) || s == start ==> frontier.dom().contains(s)
                        || #[trigger] settled(&dfa, alphabet@, visited0.elems(), s),
            decreases n - i,
        {
            let state = frontier.key(i);
            let msg = frontier.value(i);
            let ghost visited1 = visited;
            proof {
                frontier.lemma_index_of(i as int);
                assert(frontier.dom().contains(state.model()));
            }
            if dfa.accept(state) {
                return Err(copy_word(msg));
            }
            expand(&dfa, alphabet, state, msg, &mut visited, &mut next, Ghost(k));
            proof {
                assert forall|idx: int| 0 <= idx < i + 1 implies settled(
                    &dfa,
                    alphabet@,
                    visited.elems(),
                    #[trigger] frontier.keys@[idx],
                ) by {
                    if idx < i {
                        assert(settled(&dfa, alphabet@, visited1.elems(), frontier.keys@[idx]));
                    }
                }
            }
            i += 1;
        }
        proof {
            let met = visited.elems();
            let met0 = visited0.elems();
            // every state of the frontier is settled now
            assert forall|s: <D::State as Finite>::Model| frontier.dom().contains(s) implies settled(
                &dfa,
                alphabet@,
                met,
                s,
            ) by {
                let idx = choose|idx: int| 0 <= idx < frontier.keys@.len() && frontier.keys@[idx] == s;
                assert(settled(&dfa, alphabet@, met, frontier.keys@[idx]));
            }
            assert forall|s: <D::State as Finite>::Model| settled(
                &dfa,
                alphabet@,
                met0,
                s,
            ) implies settled(&dfa, alphabet@, met, s) by {}
            assert forall|s: <D::State as Finite>::Model|
                met.contains(s) || s == start implies next.dom().contains(s) || #[trigger] settled(
                &dfa,
                alphabet@,
                met,
                s,
            ) by {
                if met0.contains(s) || s == start {
                    assert(frontier.dom().contains(s) || settled(&dfa, alphabet@, met0, s));
                }
            }
            assert forall|w: Seq<X>| over(w, alphabet@) && w.len() < k + 1 implies !accepts(
                &dfa,
                w,
            ) by {
                if w.len() == k && run(&dfa, w) is Some {
                    let s = run(&dfa, w).unwrap();
                    assert(frontier.dom().contains(s) || settled(&dfa, alphabet@, met0, s));
                }
            }
            assert forall|w: Seq<X>|
                over(w, alphabet@) && w.len() == k + 1 && (#[trigger] run(
                    &dfa,
                    w,
                )) is Some implies next.dom().contains(run(&dfa, w).unwrap()) || settled(
                &dfa,
                alphabet@,
                met,
                run(&dfa, w).unwrap(),
            ) by {
                let u = w.drop_last();
                let c = w.last();
                assert(over(u, alphabet@)) by {
                    assert forall|x: int| 0 <= x < u.len() implies alphabet@.contains(
                        #[trigger] u[x],
                    ) by {
                        assert(u[x] == w[x]);
                    }
                }
                assert(alphabet@.contains(w[w.len() - 1]));
                let s = run(&dfa, u).unwrap();
                let t = run(&dfa, w).unwrap();
                assert(dfa.step(s, c) == Some(t));
                assert(frontier.dom().contains(s) || settled(&dfa, alphabet@, met0, s));
                assert(settled(&dfa, alphabet@, met, s));
                assert(met.contains(t));
            }
            k = k + 1;
            crate::sorted::lemma_sorted_no_duplicates::<D::State>(visited@);
            visited@.unique_seq_to_set();
            vstd::set_lib::lemma_len_subset(visited.elems(), <D::State as Finite>::domain());
        }
    }
    proof {
        let set = visited.elems().insert(start);
        assert(closed(&dfa, alphabet@, set)) by {
            assert forall|s: <D::State as Finite>::Model, c: X|
                set.contains(s) && alphabet@.contains(c) && (#[trigger] dfa.step(
                    s,
                    c,
                )) is Some implies set.contains(dfa.step(s, c).unwrap()) by {
                assert(settled(&dfa, alphabet@, visited.elems(), s));
            }
        }
        assert forall|w: Seq<X>| over(w, alphabet@) implies !accepts(&dfa, w) by {
            if run(&dfa, w) is Some {
                lemma_closed_holds_run(&dfa, alphabet@, set, w);
                assert(settled(&dfa, alphabet@, visited.elems(), run(&dfa, w).unwrap()));
            }
        }
    }
    Ok(())
}

/// Decides whether `a` and `b` accept the same words over `alphabet`. If they
/// do not, the error holds a shortest word that one of them accepts and the
/// other does not.
pub fn equal<X: Copy, A: Dfa<X>, B: Dfa<X>>(a: A, b: B, alphabet: &[X]) -> (r: Result<
    (),
    Vec<X>,
>)
    requires
        a.dfa_wf(),
        b.dfa_wf(),
    ensures
        match r {
            Ok(_) => forall|w: Seq<X>| over(w, alphabet@) ==> accepts(&a, w) == accepts(&b, w),
            Err(word) => {
                &&& over(word@, alphabet@)
                &&& accepts(&a, word@) != accepts(&b, word@)
                &&& forall|u: Seq<X>|
                    over(u, alphabet@) && accepts(&a, u) != accepts(&b, u) ==> word@.len()
                        <= u.len()
            },
        },
{
    let difference = Not(Iff(a, b));
    let r = is_empty(&difference, alphabet);
    let ghost outcome = r;
    proof {
        assert(difference.0.0 == a && difference.0.1 == b);
        assert forall|w: Seq<X>| #[trigger]
            accepts(&&difference, w) == (accepts(&a, w) != accepts(&b, w)) by {
            lemma_difference_language(&difference, w);
            lemma_same_through_reference(&difference, w);
        }
        match outcome {
            Ok(_) => {
                assert forall|w: Seq<X>| over(w, alphabet@) implies accepts(&a, w) == accepts(
                    &b,
                    w,
                ) by {
                    assert(!accepts(&&difference, w));
                }
            },
            Err(word) => {
                assert forall|u: Seq<X>|
                    over(u, alphabet@) && accepts(&a, u) != accepts(&b, u) implies word@.len()
                    <= u.len() by {
                    assert(accepts(&&difference, u));
                }
            },
        }
    }
    r
}

/// A reference to an automaton accepts what the automaton accepts.
pub proof fn lemma_same_through_reference<X, D: Dfa<X>>(d: &D, w: Seq<X>)
    ensures
        run(&d, w) == run(d, w),
        accepts(&d, w) == accepts(d, w),
    decreases w.len(),
{
    if w.len() > 0 {
        lemma_same_through_reference(d, w.drop_last());
    }
}

} // verus!
