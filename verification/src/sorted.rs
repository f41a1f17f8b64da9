//! Strictly sorted sequences as canonical representatives of finite sets.
//!
//! A finite set of state models is represented by the one sequence that lists
//! its elements in strictly ascending order. This module holds the definitions
//! and the facts about that representation: it exists for every finite set, it
//! is unique, and sequences compare lexicographically.
use vstd::prelude::*;
use crate::finite::{Finite, lemma_asymmetric};

verus! {

/// Each element is strictly below every later one.
pub open spec fn strictly_sorted<T: Finite>(q: Seq<T::Model>) -> bool {
    forall|i: int, j: int| 0 <= i < j < q.len() ==> T::below(#[trigger] q[i], #[trigger] q[j])
}

/// The strictly sorted sequence that lists the elements of `s`.
pub open spec fn canon<T: Finite>(s: Set<T::Model>) -> Seq<T::Model> {
    choose|q: Seq<T::Model>| strictly_sorted::<T>(q) && q.to_set() == s
}

/// Lexicographic order: a proper prefix comes first, otherwise the first
/// position at which the sequences differ decides.
pub open spec fn lex_below<T: Finite>(a: Seq<T::Model>, b: Seq<T::Model>) -> bool
    decreases a.len(),
{
    if b.len() == 0 {
        false
    } else if a.len() == 0 {
        true
    } else if a[0] == b[0] {
        lex_below::<T>(a.drop_first(), b.drop_first())
    } else {
        T::below(a[0], b[0])
    }
}

/// The elements of `s` that `f` maps somewhere, mapped.
pub open spec fn image<A, B>(s: Set<A>, f: spec_fn(A) -> Option<B>) -> Set<B> {
    Set::new(|b: B| exists|a: A| s.contains(a) && #[trigger] f(a) == Some(b))
}

/// The empty set has an empty image.
pub proof fn lemma_image_empty<A, B>(f: spec_fn(A) -> Option<B>)
    ensures
        image(Set::<A>::empty(), f) == Set::<B>::empty(),
{
    assert(image(Set::<A>::empty(), f) =~= Set::<B>::empty());
}

/// The image of a set with one more element has at most one more element.
pub proof fn lemma_image_insert<A, B>(s: Set<A>, f: spec_fn(A) -> Option<B>, x: A)
    ensures
        image(s.insert(x), f) == match f(x) {
            Some(y) => image(s, f).insert(y),
            None => image(s, f),
        },
{
    let lhs = image(s.insert(x), f);
    let rhs = match f(x) {
        Some(y) => image(s, f).insert(y),
        None => image(s, f),
    };
    assert forall|b: B| lhs.contains(b) implies rhs.contains(b) by {
        let a = choose|a: A| s.insert(x).contains(a) && #[trigger] f(a) == Some(b);
        if a != x {
            assert(s.contains(a));
        }
    }
    assert forall|b: B| rhs.contains(b) implies lhs.contains(b) by {
        if f(x) == Some(b) {
            assert(s.insert(x).contains(x));
        } else {
            let a = choose|a: A| s.contains(a) && #[trigger] f(a) == Some(b);
            assert(s.insert(x).contains(a));
        }
    }
    assert(lhs =~= rhs);
}

/// A finite set has a finite image.
pub proof fn lemma_image_finite<A, B>(s: Set<A>, f: spec_fn(A) -> Option<B>)
    requires
        s.finite(),
    ensures
        image(s, f).finite(),
    decreases s.len(),
{
    if s.len() == 0 {
        lemma_image_empty::<A, B>(f);
        assert(s =~= Set::<A>::empty());
    } else {
        let x = s.choose();
        lemma_image_finite(s.remove(x), f);
        lemma_image_insert(s.remove(x), f, x);
        assert(s.remove(x).insert(x) =~= s);
    }
}

/// The set of a prefix grows by one element when the prefix does.
pub proof fn lemma_take_to_set<A>(q: Seq<A>, i: int)
    requires
        0 <= i < q.len(),
    ensures
        q.take(i + 1).to_set() == q.take(i).to_set().insert(q[i]),
{
    let big = q.take(i + 1);
    let small = q.take(i);
    let lhs = big.to_set();
    let rhs = small.to_set().insert(q[i]);
    assert forall|a: A| lhs.contains(a) implies rhs.contains(a) by {
        let k = choose|k: int| 0 <= k < big.len() && big[k] == a;
        if k < i {
            assert(small[k] == a);
            assert(small.contains(a));
        }
    }
    assert forall|a: A| rhs.contains(a) implies lhs.contains(a) by {
        if a == q[i] {
            assert(big[i] == a);
        } else {
            let k = choose|k: int| 0 <= k < small.len() && small[k] == a;
            assert(big[k] == a);
        }
        assert(big.contains(a));
    }
    assert(lhs =~= rhs);
}

/// A strictly sorted sequence holds nothing twice.
pub proof fn lemma_sorted_no_duplicates<T: Finite>(q: Seq<T::Model>)
    requires
        strictly_sorted::<T>(q),
    ensures
        q.no_duplicates(),
{
    assert forall|i: int, j: int| 0 <= i < q.len() && 0 <= j < q.len() && i != j implies q[i]
        != q[j] by {
        T::lemma_strict_total_order(q[i], q[j], q[i]);
    }
}

/// A strictly sorted sequence is determined by the set of its elements.
pub proof fn lemma_sorted_unique<T: Finite>(a: Seq<T::Model>, b: Seq<T::Model>)
    requires
        strictly_sorted::<T>(a),
        strictly_sorted::<T>(b),
        a.to_set() == b.to_set(),
    ensures
        a == b,
    decreases a.len(),
{
    if a.len() == 0 {
        if b.len() > 0 {
            assert(b.contains(b[0]));
            assert(b.to_set().contains(b[0]));
            assert(a.contains(b[0]));
        }
        assert(a =~= b);
    } else if b.len() == 0 {
        assert(a.contains(a[0]));
        assert(a.to_set().contains(a[0]));
        assert(b.contains(a[0]));
    } else {
        let x = a.last();
        let y = b.last();
        assert(a.contains(x));
        assert(b.to_set().contains(x));
        assert(b.contains(y));
        assert(a.to_set().contains(y));
        let i = choose|i: int| 0 <= i < b.len() && b[i] == x;
        let j = choose|j: int| 0 <= j < a.len() && a[j] == y;
        if x != y {
            // x sits strictly before the end of b, and y strictly before the end of a
            assert(i < b.len() - 1);
            assert(j < a.len() - 1);
            assert(T::below(b[i], b[b.len() - 1]));
            assert(T::below(a[j], a[a.len() - 1]));
            lemma_asymmetric::<T>(x, y);
        }
        let a0 = a.drop_last();
        let b0 = b.drop_last();
        lemma_sorted_no_duplicates::<T>(a);
        lemma_sorted_no_duplicates::<T>(b);
        assert forall|m: T::Model| a0.to_set().contains(m) <==> b0.to_set().contains(m) by {
            if a0.contains(m) {
                let k = choose|k: int| 0 <= k < a0.len() && a0[k] == m;
                assert(a[k] == m);
                assert(a.contains(m));
                assert(b.to_set().contains(m));
                let l = choose|l: int| 0 <= l < b.len() && b[l] == m;
                assert(m != x);
                assert(b0[l] == m);
            }
            if b0.contains(m) {
                let k = choose|k: int| 0 <= k < b0.len() && b0[k] == m;
                assert(b[k] == m);
                assert(b.contains(m));
                assert(a.to_set().contains(m));
                let l = choose|l: int| 0 <= l < a.len() && a[l] == m;
                assert(m != y);
                assert(a0[l] == m);
            }
        }
        assert(a0.to_set() =~= b0.to_set());
        assert(strictly_sorted::<T>(a0)) by {
            assert forall|i: int, j: int| 0 <= i < j < a0.len() implies T::below(
                #[trigger] a0[i],
                #[trigger] a0[j],
            ) by {
                assert(T::below(a[i], a[j]));
            }
        }
        assert(strictly_sorted::<T>(b0)) by {
            assert forall|i: int, j: int| 0 <= i < j < b0.len() implies T::below(
                #[trigger] b0[i],
                #[trigger] b0[j],
            ) by {
                assert(T::below(b[i], b[j]));
            }
        }
        lemma_sorted_unique::<T>(a0, b0);
        assert(a =~= a0.push(x));
        assert(b =~= b0.push(y));
    }
}

/// Position at which `x` belongs in the strictly sorted `q`.
pub open spec fn rank<T: Finite>(q: Seq<T::Model>, x: T::Model) -> int
    decreases q.len(),
{
    if q.len() == 0 {
        0
    } else if T::below(q.last(), x) {
        q.len() as int
    } else {
        rank::<T>(q.drop_last(), x)
    }
}

/// Below its rank everything is below `x`, and from its rank on nothing is.
pub proof fn lemma_rank<T: Finite>(q: Seq<T::Model>, x: T::Model)
    requires
        strictly_sorted::<T>(q),
    ensures
        0 <= rank::<T>(q, x) <= q.len(),
        forall|k: int| 0 <= k < rank::<T>(q, x) ==> T::below(#[trigger] q[k], x),
        forall|k: int| rank::<T>(q, x) <= k < q.len() ==> !T::below(#[trigger] q[k], x),
    decreases q.len(),
{
    if q.len() == 0 {
    } else if T::below(q.last(), x) {
        assert forall|k: int| 0 <= k < q.len() implies T::below(#[trigger] q[k], x) by {
            if k < q.len() - 1 {
                assert(T::below(q[k], q[q.len() - 1]));
                T::lemma_strict_total_order(q[k], q.last(), x);
            }
        }
    } else {
        let q0 = q.drop_last();
        assert(strictly_sorted::<T>(q0)) by {
            assert forall|i: int, j: int| 0 <= i < j < q0.len() implies T::below(
                #[trigger] q0[i],
                #[trigger] q0[j],
            ) by {
                assert(T::below(q[i], q[j]));
            }
        }
        lemma_rank::<T>(q0, x);
        assert forall|k: int| 0 <= k < rank::<T>(q, x) implies T::below(#[trigger] q[k], x) by {
            assert(q0[k] == q[k]);
        }
        assert forall|k: int| rank::<T>(q, x) <= k < q.len() implies !T::below(
            #[trigger] q[k],
            x,
        ) by {
            if k < q.len() - 1 {
                assert(q0[k] == q[k]);
            }
        }
    }
}

/// Putting a new element between the elements below it and those above it
/// keeps the sequence strictly sorted and adds the element to its set.
pub proof fn lemma_insert_sorted<T: Finite>(q: Seq<T::Model>, pos: int, x: T::Model)
    requires
        strictly_sorted::<T>(q),
        0 <= pos <= q.len(),
        forall|k: int| 0 <= k < pos ==> T::below(#[trigger] q[k], x),
        forall|k: int| pos <= k < q.len() ==> T::below(x, #[trigger] q[k]),
    ensures
        strictly_sorted::<T>(q.insert(pos, x)),
        q.insert(pos, x).to_set() == q.to_set().insert(x),
        !q.contains(x),
{
    let r = q.insert(pos, x);
    assert forall|i: int, j: int| 0 <= i < j < r.len() implies T::below(
        #[trigger] r[i],
        #[trigger] r[j],
    ) by {
        if j < pos {
            assert(T::below(q[i], q[j]));
        } else if j == pos {
            assert(T::below(q[i], x));
        } else if i < pos {
            assert(T::below(q[i], q[j - 1]));
        } else if i == pos {
            assert(T::below(x, q[j - 1]));
        } else {
            assert(T::below(q[i - 1], q[j - 1]));
        }
    }
    assert forall|m: T::Model| r.to_set().contains(m) implies q.to_set().insert(x).contains(m) by {
        let k = choose|k: int| 0 <= k < r.len() && r[k] == m;
        if k < pos {
            assert(q[k] == m);
            assert(q.contains(m));
        } else if k > pos {
            assert(q[k - 1] == m);
            assert(q.contains(m));
        }
    }
    assert forall|m: T::Model| q.to_set().insert(x).contains(m) implies r.to_set().contains(m) by {
        if m == x {
            assert(r[pos] == m);
            assert(r.contains(m));
        } else {
            let k = choose|k: int| 0 <= k < q.len() && q[k] == m;
            if k < pos {
                assert(r[k] == m);
            } else {
                assert(r[k + 1] == m);
            }
            assert(r.contains(m));
        }
    }
    assert(r.to_set() =~= q.to_set().insert(x));
    if q.contains(x) {
        let k = choose|k: int| 0 <= k < q.len() && q[k] == x;
        T::lemma_strict_total_order(x, x, x);
    }
}

/// Every finite set has a strictly sorted listing.
pub proof fn lemma_sorted_exists<T: Finite>(s: Set<T::Model>) -> (q: Seq<T::Model>)
    requires
        s.finite(),
    ensures
        strictly_sorted::<T>(q),
        q.to_set() == s,
    decreases s.len(),
{
    if s.len() == 0 {
        let q = Seq::<T::Model>::empty();
        assert(q.to_set() =~= s);
        q
    } else {
        let x = s.choose();
        let q0 = lemma_sorted_exists::<T>(s.remove(x));
        let pos = rank::<T>(q0, x);
        lemma_rank::<T>(q0, x);
        assert forall|k: int| pos <= k < q0.len() implies T::below(x, #[trigger] q0[k]) by {
            assert(q0.contains(q0[k]));
            assert(s.remove(x).contains(q0[k]));
            T::lemma_strict_total_order(x, q0[k], x);
        }
        lemma_insert_sorted::<T>(q0, pos, x);
        assert(s.remove(x).insert(x) =~= s);
        q0.insert(pos, x)
    }
}

/// `canon` lists exactly the elements of a finite set, in strictly ascending order.
pub proof fn lemma_canon<T: Finite>(s: Set<T::Model>)
    requires
        s.finite(),
    ensures
        strictly_sorted::<T>(canon::<T>(s)),
        canon::<T>(s).to_set() == s,
{
    let q = lemma_sorted_exists::<T>(s);
}

/// A strictly sorted sequence is the canonical listing of its own elements.
pub proof fn lemma_canon_of_sorted<T: Finite>(q: Seq<T::Model>)
    requires
        strictly_sorted::<T>(q),
    ensures
        canon::<T>(q.to_set()) == q,
{
    let c = canon::<T>(q.to_set());
    assert(strictly_sorted::<T>(c) && c.to_set() == q.to_set());
    lemma_sorted_unique::<T>(c, q);
}

} // verus!
