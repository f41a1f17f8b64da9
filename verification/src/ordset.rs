//! Ordered sets of states.
//!
//! An [`OrdSet`] keeps its elements in a vector in strictly ascending order, so
//! that two sets with the same elements have the same representation, whatever
//! the order in which the elements were added. Sets are themselves states: they
//! compare lexicographically and can be collected into sets again.
use vstd::prelude::*;
use crate::finite::{Finite, Order, lemma_asymmetric};
use crate::sorted::{
    strictly_sorted,
    canon,
    image,
    lex_below,
    lemma_insert_sorted,
    lemma_canon_of_sorted,
    lemma_sorted_unique,
    lemma_image_empty,
    lemma_image_insert,
    lemma_take_to_set,
};

verus! {

/// A set of states, kept as a vector in strictly ascending order.
#[derive(Debug, Clone)]
pub struct OrdSet<T: Finite> {
    pub items: Vec<T>,
}

impl<T: Finite> View for OrdSet<T> {
    type V = Seq<T::Model>;

    /// The models of the elements, in ascending order.
    open spec fn view(&self) -> Seq<T::Model> {
        self.items@.map_values(|x: T| x.model())
    }
}

/// No sequence comes before itself.
pub proof fn lemma_lex_irreflexive<T: Finite>(a: Seq<T::Model>)
    ensures
        !lex_below::<T>(a, a),
    decreases a.len(),
{
    if a.len() > 0 {
        lemma_lex_irreflexive::<T>(a.drop_first());
    }
}

/// The lexicographic order is transitive.
pub proof fn lemma_lex_transitive<T: Finite>(a: Seq<T::Model>, b: Seq<T::Model>, c: Seq<T::Model>)
    requires
        lex_below::<T>(a, b),
        lex_below::<T>(b, c),
    ensures
        lex_below::<T>(a, c),
    decreases a.len(),
{
    if a.len() > 0 {
        T::lemma_strict_total_order(a[0], b[0], c[0]);
        if a[0] == b[0] && b[0] == c[0] {
            lemma_lex_transitive::<T>(a.drop_first(), b.drop_first(), c.drop_first());
        }
    }
}

/// Of two different sequences one comes before the other.
pub proof fn lemma_lex_total<T: Finite>(a: Seq<T::Model>, b: Seq<T::Model>)
    requires
        a != b,
    ensures
        lex_below::<T>(a, b) || lex_below::<T>(b, a),
    decreases a.len(),
{
    if a.len() > 0 && b.len() > 0 {
        T::lemma_strict_total_order(a[0], b[0], a[0]);
        if a[0] == b[0] {
            if a.drop_first() == b.drop_first() {
                assert(a =~= seq![a[0]] + a.drop_first());
                assert(b =~= seq![b[0]] + b.drop_first());
            }
            lemma_lex_total::<T>(a.drop_first(), b.drop_first());
        }
    } else if a.len() == 0 && b.len() == 0 {
        assert(a =~= b);
    }
}

/// Two sequences that agree on their first `i` elements compare as their rests do.
pub proof fn lemma_lex_skip<T: Finite>(a: Seq<T::Model>, b: Seq<T::Model>, i: int)
    requires
        0 <= i <= a.len(),
        i <= b.len(),
        forall|k: int| 0 <= k < i ==> a[k] == b[k],
    ensures
        lex_below::<T>(a, b) == lex_below::<T>(a.skip(i), b.skip(i)),
    decreases i,
{
    if i == 0 {
        assert(a.skip(0) =~= a);
        assert(b.skip(0) =~= b);
    } else {
        assert(a[0] == b[0]);
        let a1 = a.drop_first();
        let b1 = b.drop_first();
        assert forall|k: int| 0 <= k < i - 1 implies a1[k] == b1[k] by {
            assert(a[k + 1] == b[k + 1]);
        }
        lemma_lex_skip::<T>(a1, b1, i - 1);
        assert(a1.skip(i - 1) =~= a.skip(i));
        assert(b1.skip(i - 1) =~= b.skip(i));
    }
}

/// All subsets of `d`.
pub open spec fn subsets<A>(d: Set<A>) -> Set<Set<A>> {
    Set::new(|s: Set<A>| s.subset_of(d))
}

/// A finite set has finitely many subsets.
pub proof fn lemma_subsets_finite<A>(d: Set<A>)
    requires
        d.finite(),
    ensures
        subsets(d).finite(),
    decreases d.len(),
{
    if d.len() == 0 {
        assert forall|s: Set<A>| subsets(d).contains(s) implies set![Set::<A>::empty()].contains(
            s,
        ) by {
            assert(s =~= Set::<A>::empty());
        }
        assert(subsets(d).subset_of(set![Set::<A>::empty()]));
        vstd::set_lib::lemma_set_subset_finite(set![Set::<A>::empty()], subsets(d));
    } else {
        let x = d.choose();
        let d0 = d.remove(x);
        let f = |s: Set<A>| s.insert(x);
        lemma_subsets_finite(d0);
        subsets(d0).lemma_map_finite(f);
        let both = subsets(d0).union(subsets(d0).map(f));
        assert forall|s: Set<A>| subsets(d).contains(s) implies both.contains(s) by {
            if s.contains(x) {
                let s0 = s.remove(x);
                assert(s0.subset_of(d0));
                assert(f(s0) =~= s);
                assert(subsets(d0).contains(s0));
                assert(subsets(d0).map(f).contains(s));
            } else {
                assert(s.subset_of(d0));
            }
        }
        assert(subsets(d).subset_of(both));
        vstd::set_lib::lemma_set_subset_finite(both, subsets(d));
    }
}

impl<T: Finite> Finite for OrdSet<T> {
    type Model = Seq<T::Model>;

    open spec fn model(&self) -> Seq<T::Model> {
        self@
    }

    /// The elements are well-formed and stand in strictly ascending order.
    open spec fn wf(&self) -> bool {
        &&& forall|i: int| 0 <= i < self.items@.len() ==> (#[trigger] self.items@[i]).wf()
        &&& strictly_sorted::<T>(self@)
    }

    open spec fn below(a: Seq<T::Model>, b: Seq<T::Model>) -> bool {
        lex_below::<T>(a, b)
    }

    open spec fn domain() -> Set<Seq<T::Model>> {
        Set::new(|q: Seq<T::Model>| strictly_sorted::<T>(q) && q.to_set().subset_of(T::domain()))
    }

    proof fn lemma_strict_total_order(a: Seq<T::Model>, b: Seq<T::Model>, c: Seq<T::Model>) {
        lemma_lex_irreflexive::<T>(a);
        if lex_below::<T>(a, b) && lex_below::<T>(b, c) {
            lemma_lex_transitive::<T>(a, b, c);
        }
        if a != b {
            lemma_lex_total::<T>(a, b);
        }
    }

    proof fn lemma_domain_finite() {
        T::lemma_domain_finite();
        lemma_subsets_finite(T::domain());
        let f = |s: Set<T::Model>| canon::<T>(s);
        subsets(T::domain()).lemma_map_finite(f);
        assert forall|q: Seq<T::Model>| Self::domain().contains(q) implies subsets(T::domain()).map(
            f,
        ).contains(q) by {
            lemma_canon_of_sorted::<T>(q);
            assert(subsets(T::domain()).contains(q.to_set()));
            assert(f(q.to_set()) == q);
        }
        assert(Self::domain().subset_of(subsets(T::domain()).map(f)));
        vstd::set_lib::lemma_set_subset_finite(subsets(T::domain()).map(f), Self::domain());
    }

    proof fn lemma_in_domain(&self) {
        assert forall|m: T::Model| self@.to_set().contains(m) implies T::domain().contains(m) by {
            let k = choose|k: int| 0 <= k < self@.len() && self@[k] == m;
            self.items@[k].lemma_in_domain();
        }
    }

    fn compare(&self, other: &Self) -> (o: Order) {
        let n = self.items.len();
        let m = other.items.len();
        let mut i: usize = 0;
        while i < n && i < m
            invariant
                self.wf(),
                other.wf(),
                n == self.items@.len(),
                m == other.items@.len(),
                i <= n,
                i <= m,
                forall|k: int| 0 <= k < i ==> self@[k] == other@[k],
            decreases n - i,
        {
            let o = self.items[i].compare(&other.items[i]);
            proof {
                lemma_lex_skip::<T>(self@, other@, i as int);
                lemma_lex_skip::<T>(other@, self@, i as int);
                assert(self@.skip(i as int)[0] == self@[i as int]);
                assert(other@.skip(i as int)[0] == other@[i as int]);
                lemma_asymmetric::<T>(self@[i as int], other@[i as int]);
                T::lemma_strict_total_order(self@[i as int], self@[i as int], self@[i as int]);
            }
            match o {
                Order::Less => {
                    return Order::Less;
                },
                Order::Greater => {
                    return Order::Greater;
                },
                Order::Equal => {},
            }
            i += 1;
        }
        proof {
            lemma_lex_skip::<T>(self@, other@, i as int);
            lemma_lex_skip::<T>(other@, self@, i as int);
            if n == m {
                assert(self@ =~= other@);
                lemma_lex_irreflexive::<T>(self@);
            }
        }
        if n < m {
            Order::Less
        } else if n == m {
            Order::Equal
        } else {
            Order::Greater
        }
    }

    fn duplicate(&self) -> (c: Self) {
        let mut items: Vec<T> = Vec::new();
        let n = self.items.len();
        let mut i: usize = 0;
        while i < n
            invariant
                self.wf(),
                n == self.items@.len(),
                i <= n,
                items@.len() == i,
                forall|k: int| 0 <= k < i ==> (#[trigger] items@[k]).wf(),
                forall|k: int| 0 <= k < i ==> (#[trigger] items@[k]).model() == self@[k],
            decreases n - i,
        {
            items.push(self.items[i].duplicate());
            i += 1;
        }
        let c = OrdSet { items };
        proof {
            assert(c@ =~= self@);
        }
        c
    }
}

impl<T: Finite> OrdSet<T> {
    /// The set of models that the set holds.
    pub open spec fn elems(&self) -> Set<T::Model> {
        self@.to_set()
    }

    /// A well-formed set is the canonical listing of its elements.
    pub proof fn lemma_canonical(&self)
        requires
            self.wf(),
        ensures
            self@ == canon::<T>(self.elems()),
            self.elems().finite(),
    {
        lemma_canon_of_sorted::<T>(self@);
        vstd::seq_lib::seq_to_set_is_finite(self@);
    }

    /// The empty set.
    pub fn new() -> (s: Self)
        ensures
            s.wf(),
            s@ == Seq::<T::Model>::empty(),
            s.elems() == Set::<T::Model>::empty(),
    {
        let s = OrdSet { items: Vec::new() };
        proof {
            assert(s@ =~= Seq::<T::Model>::empty());
            assert(s.elems() =~= Set::<T::Model>::empty());
        }
        s
    }

    /// The number of elements.
    pub fn len(&self) -> (n: usize)
        ensures
            n == self@.len(),
    {
        self.items.len()
    }

    /// Whether the set has no elements.
    pub fn is_empty(&self) -> (b: bool)
        ensures
            b == (self@.len() == 0),
            b == (self.elems() == Set::<T::Model>::empty()),
    {
        proof {
            if self@.len() == 0 {
                assert(self.elems() =~= Set::<T::Model>::empty());
            } else {
                assert(self@.contains(self@[0]));
                assert(self.elems().contains(self@[0]));
            }
        }
        self.items.len() == 0
    }

    /// The element at position `i` in ascending order.
    pub fn get(&self, i: usize) -> (x: &T)
        requires
            i < self@.len(),
        ensures
            x.model() == self@[i as int],
            self.wf() ==> x.wf(),
            self.elems().contains(x.model()),
    {
        proof {
            assert(self@.contains(self@[i as int]));
        }
        &self.items[i]
    }

    /// Where `x` is, or where it belongs: the flag tells which.
    pub fn locate(&self, x: &T) -> (r: (bool, usize))
        requires
            self.wf(),
            x.wf(),
        ensures
            r.1 <= self@.len(),
            forall|k: int| 0 <= k < r.1 ==> T::below(#[trigger] self@[k], x.model()),
            forall|k: int| r.1 < k < self@.len() ==> T::below(x.model(), #[trigger] self@[k]),
            r.0 ==> r.1 < self@.len() && self@[r.1 as int] == x.model(),
            !r.0 ==> (r.1 < self@.len() ==> T::below(x.model(), self@[r.1 as int])),
            r.0 == self.elems().contains(x.model()),
    {
        let n = self.items.len();
        let mut i: usize = 0;
        while i < n
            invariant
                self.wf(),
                x.wf(),
                n == self.items@.len(),
                i <= n,
                forall|k: int| 0 <= k < i ==> T::below(#[trigger] self@[k], x.model()),
            decreases n - i,
        {
            match self.items[i].compare(x) {
                Order::Less => {},
                Order::Equal => {
                    proof {
                        assert(self@.contains(self@[i as int]));
                        assert forall|k: int| i < k < self@.len() implies T::below(
                            x.model(),
                            #[trigger] self@[k],
                        ) by {
                            assert(T::below(self@[i as int], self@[k]));
                        }
                    }
                    return (true, i);
                },
                Order::Greater => {
                    proof {
                        assert forall|k: int| i < k < self@.len() implies T::below(
                            x.model(),
                            #[trigger] self@[k],
                        ) by {
                            assert(T::below(self@[i as int], self@[k]));
                            T::lemma_strict_total_order(x.model(), self@[i as int], self@[k]);
                        }
                        if self@.contains(x.model()) {
                            let k = choose|k: int| 0 <= k < self@.len() && self@[k] == x.model();
                            T::lemma_strict_total_order(x.model(), x.model(), x.model());
                        }
                    }
                    return (false, i);
                },
            }
            i += 1;
        }
        proof {
            if self@.contains(x.model()) {
                let k = choose|k: int| 0 <= k < self@.len() && self@[k] == x.model();
                T::lemma_strict_total_order(x.model(), x.model(), x.model());
            }
        }
        (false, n)
    }

    /// Whether `x` is an element of the set.
    pub fn contains(&self, x: &T) -> (b: bool)
        requires
            self.wf(),
            x.wf(),
        ensures
            b == self.elems().contains(x.model()),
    {
        self.locate(x).0
    }

    /// Adds `x`; the result tells whether it was new.
    pub fn insert(&mut self, x: T) -> (fresh: bool)
        requires
            old(self).wf(),
            x.wf(),
        ensures
            final(self).wf(),
            final(self).elems() == old(self).elems().insert(x.model()),
            fresh == !old(self).elems().contains(x.model()),
            fresh ==> final(self)@.len() == old(self)@.len() + 1,
            !fresh ==> final(self)@ == old(self)@,
    {
        let (found, pos) = self.locate(&x);
        if found {
            proof {
                assert(self.elems().insert(x.model()) =~= self.elems());
            }
            false
        } else {
            proof {
                lemma_insert_sorted::<T>(self@, pos as int, x.model());
            }
            let ghost before = self.items@;
            self.items.insert(pos, x);
            proof {
                assert(self@ =~= before.map_values(|y: T| y.model()).insert(pos as int, x.model()));
                assert forall|i: int| 0 <= i < self.items@.len() implies (
                #[trigger] self.items@[i]).wf() by {
                    if i < pos {
                        assert(before[i].wf());
                    } else if i > pos {
                        assert(before[i - 1].wf());
                    }
                }
            }
            true
        }
    }

    /// The set that holds `x` and nothing else.
    pub fn singleton(x: T) -> (s: Self)
        requires
            x.wf(),
        ensures
            s.wf(),
            s.elems() == set![x.model()],
            s@ == seq![x.model()],
    {
        let ghost m = x.model();
        let mut items: Vec<T> = Vec::new();
        items.push(x);
        let s = OrdSet { items };
        proof {
            assert(s@ =~= seq![m]);
            assert(s@[0] == m);
            assert(s@.contains(m));
            assert(s.elems() =~= set![m]);
        }
        s
    }

    /// The set of what `o` holds: one element or none.
    pub fn from_option(o: Option<T>) -> (s: Self)
        requires
            o.wf(),
        ensures
            s.wf(),
            s.elems() == match o {
                Some(x) => set![x.model()],
                None => Set::<T::Model>::empty(),
            },
    {
        match o {
            Some(x) => Self::singleton(x),
            None => Self::new(),
        }
    }
}

/// Adds to `out` what `f` makes of each element of `set`, where it makes
/// anything. `g` says what `f` computes, on models.
pub(crate) fn collect_into<T: Finite, U: Finite, F: Fn(&T) -> Option<U>>(
    set: &OrdSet<T>,
    f: F,
    out: &mut OrdSet<U>,
    g: Ghost<spec_fn(T::Model) -> Option<U::Model>>,
)
    requires
        set.wf(),
        old(out).wf(),
        forall|x: &T| x.wf() ==> call_requires(f, (x,)),
        forall|x: &T, r: Option<U>|
            x.wf() && call_ensures(f, (x,), r) ==> r.wf() && r.model() == (g@)(x.model()),
    ensures
        final(out).wf(),
        final(out).elems() == old(out).elems().union(image(set.elems(), g@)),
{
    let ghost base = out.elems();
    let n = set.len();
    let mut i: usize = 0;
    proof {
        assert(set@.take(0).to_set() =~= Set::empty());
        lemma_image_empty(g@);
        assert(base.union(Set::empty()) =~= base);
    }
    while i < n
        invariant
            set.wf(),
            out.wf(),
            n == set@.len(),
            i <= n,
            forall|x: &T| x.wf() ==> call_requires(f, (x,)),
            forall|x: &T, r: Option<U>|
                x.wf() && call_ensures(f, (x,), r) ==> r.wf() && r.model() == (g@)(x.model()),
            out.elems() == base.union(image(set@.take(i as int).to_set(), g@)),
        decreases n - i,
    {
        let ghost before = image(set@.take(i as int).to_set(), g@);
        proof {
            lemma_take_to_set(set@, i as int);
            lemma_image_insert(set@.take(i as int).to_set(), g@, set@[i as int]);
        }
        match f(set.get(i)) {
            Some(t) => {
                out.insert(t);
                proof {
                    assert(base.union(before).insert(t.model()) =~= base.union(
                        before.insert(t.model()),
                    ));
                }
            },
            None => {},
        }
        i += 1;
    }
    proof {
        assert(set@.take(n as int) =~= set@);
    }
}

/// The set of what `f` makes of each element of `set`, where it makes
/// anything. `g` says what `f` computes, on models.
pub(crate) fn collect<T: Finite, U: Finite, F: Fn(&T) -> Option<U>>(
    set: &OrdSet<T>,
    f: F,
    g: Ghost<spec_fn(T::Model) -> Option<U::Model>>,
) -> (out: OrdSet<U>)
    requires
        set.wf(),
        forall|x: &T| x.wf() ==> call_requires(f, (x,)),
        forall|x: &T, r: Option<U>|
            x.wf() && call_ensures(f, (x,), r) ==> r.wf() && r.model() == (g@)(x.model()),
    ensures
        out.wf(),
        out.elems() == image(set.elems(), g@),
{
    let mut out: OrdSet<U> = OrdSet::new();
    collect_into(set, f, &mut out, g);
    proof {
        assert(Set::<U::Model>::empty().union(image(set.elems(), g@)) =~= image(
            set.elems(),
            g@,
        ));
    }
    out
}

/// Whether `f` holds of some element of `set`. `p` says what `f` decides, on models.
pub(crate) fn any_of<T: Finite, F: Fn(&T) -> bool>(
    set: &OrdSet<T>,
    f: F,
    p: Ghost<spec_fn(T::Model) -> bool>,
) -> (b: bool)
    requires
        set.wf(),
        forall|x: &T| x.wf() ==> call_requires(f, (x,)),
        forall|x: &T, r: bool| x.wf() && call_ensures(f, (x,), r) ==> r == (p@)(x.model()),
    ensures
        b == exists|m: T::Model| set.elems().contains(m) && #[trigger] (p@)(m),
{
    let n = set.len();
    let mut i: usize = 0;
    while i < n
        invariant
            set.wf(),
            n == set@.len(),
            i <= n,
            forall|x: &T| x.wf() ==> call_requires(f, (x,)),
            forall|x: &T, r: bool| x.wf() && call_ensures(f, (x,), r) ==> r == (p@)(x.model()),
            forall|k: int| 0 <= k < i ==> !(p@)(#[trigger] set@[k]),
        decreases n - i,
    {
        if f(set.get(i)) {
            proof {
                assert((p@)(set@[i as int]));
            }
            return true;
        }
        i += 1;
    }
    proof {
        if exists|m: T::Model| set.elems().contains(m) && #[trigger] (p@)(m) {
            let m = choose|m: T::Model| set.elems().contains(m) && #[trigger] (p@)(m);
            let k = choose|k: int| 0 <= k < set@.len() && set@[k] == m;
            assert(!(p@)(set@[k]));
        }
    }
    false
}

/// Two well-formed sets with the same elements are the same state.
pub proof fn lemma_same_elements_same_state<T: Finite>(a: OrdSet<T>, b: OrdSet<T>)
    requires
        a.wf(),
        b.wf(),
        a.elems() == b.elems(),
    ensures
        a.model() == b.model(),
{
    lemma_sorted_unique::<T>(a@, b@);
}

/// Two well-formed sets with the same elements, in whatever order they were
/// built, lead to the same states and are accepting or not alike.
pub proof fn lemma_same_elements_same_successors<
    X,
    T: Finite,
    D: crate::dfa::Dfa<X, State = OrdSet<T>>,
>(d: &D, a: OrdSet<T>, b: OrdSet<T>, c: X)
    requires
        a.wf(),
        b.wf(),
        a.elems() == b.elems(),
    ensures
        d.step(a.model(), c) == d.step(b.model(), c),
        d.accepting(a.model()) == d.accepting(b.model()),
{
    lemma_same_elements_same_state(a, b);
}

} // verus!
