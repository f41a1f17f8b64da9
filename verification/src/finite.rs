//! Finite, totally ordered state types.
//!
//! Every automaton state is a value of a type that implements [`Finite`]. Such a
//! type has a mathematical model, a strict total order on that model (needed
//! wherever states are collected into sets), a three-way comparison that decides
//! the order, and a finite domain that contains the model of every well-formed
//! value. The finite domain is what bounds every state-space exploration.
use vstd::prelude::*;

verus! {

/// Result of a three-way comparison.
#[derive(Debug, Clone, Copy, PartialEq, Eq, Structural)]
pub enum Order {
    Less,
    Equal,
    Greater,
}

/// A type of states: finite, totally ordered, and with a copy operation.
pub trait Finite: Sized {
    /// The mathematical value that a state stands for.
    type Model;

    spec fn model(&self) -> Self::Model;

    /// Representation invariant of a value (for sets: sorted, without duplicates).
    spec fn wf(&self) -> bool;

    /// Strict total order on models.
    spec fn below(a: Self::Model, b: Self::Model) -> bool;

    /// A finite set that holds the model of every well-formed value.
    spec fn domain() -> Set<Self::Model>;

    /// `below` is irreflexive, transitive and total.
    proof fn lemma_strict_total_order(a: Self::Model, b: Self::Model, c: Self::Model)
        ensures
            !Self::below(a, a),
            Self::below(a, b) && Self::below(b, c) ==> Self::below(a, c),
            a != b ==> Self::below(a, b) || Self::below(b, a),
    ;

    proof fn lemma_domain_finite()
        ensures
            Self::domain().finite(),
    ;

    proof fn lemma_in_domain(&self)
        requires
            self.wf(),
        ensures
            Self::domain().contains(self.model()),
    ;

    fn compare(&self, other: &Self) -> (o: Order)
        requires
            self.wf(),
            other.wf(),
        ensures
            o is Less <==> Self::below(self.model(), other.model()),
            o is Equal <==> self.model() == other.model(),
            o is Greater <==> Self::below(other.model(), self.model()),
    ;

    fn duplicate(&self) -> (c: Self)
        requires
            self.wf(),
        ensures
            c.wf(),
            c.model() == self.model(),
    ;
}

/// `below` never holds in both directions.
pub proof fn lemma_asymmetric<T: Finite>(a: T::Model, b: T::Model)
    ensures
        !(T::below(a, b) && T::below(b, a)),
{
    T::lemma_strict_total_order(a, b, a);
}

/// All pairs with the first component in `a` and the second in `b`.
pub open spec fn pairs<A, B>(a: Set<A>, b: Set<B>) -> Set<(A, B)> {
    Set::new(|p: (A, B)| a.contains(p.0) && b.contains(p.1))
}

/// Two finite sets have finitely many pairs.
pub proof fn lemma_pairs_finite<A, B>(a: Set<A>, b: Set<B>)
    requires
        a.finite(),
        b.finite(),
    ensures
        pairs(a, b).finite(),
    decreases a.len(),
{
    if a.len() == 0 {
        assert(pairs(a, b) =~= Set::<(A, B)>::empty());
    } else {
        let x = a.choose();
        let f = |y: B| (x, y);
        lemma_pairs_finite(a.remove(x), b);
        b.lemma_map_finite(f);
        assert forall|p: (A, B)| pairs(a, b).contains(p) implies pairs(a.remove(x), b).union(
            b.map(f),
        ).contains(p) by {
            if p.0 == x {
                assert(f(p.1) == p);
                assert(b.map(f).contains(p));
            }
        }
        assert(pairs(a, b).subset_of(pairs(a.remove(x), b).union(b.map(f))));
        vstd::set_lib::lemma_set_subset_finite(pairs(a.remove(x), b).union(b.map(f)), pairs(a, b));
    }
}

impl Finite for () {
    type Model = ();

    open spec fn model(&self) -> () {
        ()
    }

    open spec fn wf(&self) -> bool {
        true
    }

    open spec fn below(a: (), b: ()) -> bool {
        false
    }

    open spec fn domain() -> Set<()> {
        set![()]
    }

    proof fn lemma_strict_total_order(a: (), b: (), c: ()) {
    }

    proof fn lemma_domain_finite() {
    }

    proof fn lemma_in_domain(&self) {
    }

    fn compare(&self, other: &Self) -> (o: Order) {
        Order::Equal
    }

    fn duplicate(&self) -> (c: Self) {
        ()
    }
}

impl Finite for bool {
    type Model = bool;

    open spec fn model(&self) -> bool {
        *self
    }

    open spec fn wf(&self) -> bool {
        true
    }

    open spec fn below(a: bool, b: bool) -> bool {
        !a && b
    }

    open spec fn domain() -> Set<bool> {
        set![false, true]
    }

    proof fn lemma_strict_total_order(a: bool, b: bool, c: bool) {
    }

    proof fn lemma_domain_finite() {
    }

    proof fn lemma_in_domain(&self) {
    }

    fn compare(&self, other: &Self) -> (o: Order) {
        if *self == *other {
            Order::Equal
        } else if *other {
            Order::Less
        } else {
            Order::Greater
        }
    }

    fn duplicate(&self) -> (c: Self) {
        *self
    }
}

impl Finite for usize {
    type Model = usize;

    open spec fn model(&self) -> usize {
        *self
    }

    open spec fn wf(&self) -> bool {
        true
    }

    open spec fn below(a: usize, b: usize) -> bool {
        a < b
    }

    open spec fn domain() -> Set<usize> {
        Set::full()
    }

    proof fn lemma_strict_total_order(a: usize, b: usize, c: usize) {
    }

    proof fn lemma_domain_finite() {
        <usize as vstd::set_lib::FiniteFull>::full_properties();
    }

    proof fn lemma_in_domain(&self) {
    }

    fn compare(&self, other: &Self) -> (o: Order) {
        if *self < *other {
            Order::Less
        } else if *self == *other {
            Order::Equal
        } else {
            Order::Greater
        }
    }

    fn duplicate(&self) -> (c: Self) {
        *self
    }
}

impl<T: Finite> Finite for Option<T> {
    type Model = Option<T::Model>;

    open spec fn model(&self) -> Option<T::Model> {
        match self {
            Some(x) => Some(x.model()),
            None => None,
        }
    }

    open spec fn wf(&self) -> bool {
        match self {
            Some(x) => x.wf(),
            None => true,
        }
    }

    /// `None` comes first; two `Some` compare by their contents.
    open spec fn below(a: Option<T::Model>, b: Option<T::Model>) -> bool {
        match (a, b) {
            (None, Some(_)) => true,
            (Some(x), Some(y)) => T::below(x, y),
            _ => false,
        }
    }

    open spec fn domain() -> Set<Option<T::Model>> {
        T::domain().map(|x: T::Model| Some(x)).insert(None)
    }

    proof fn lemma_strict_total_order(a: Option<T::Model>, b: Option<T::Model>, c: Option<T::Model>) {
        match (a, b, c) {
            (Some(x), Some(y), Some(z)) => {
                T::lemma_strict_total_order(x, y, z);
            },
            (Some(x), Some(y), None) => {
                T::lemma_strict_total_order(x, y, y);
            },
            (Some(x), None, _) => {
                T::lemma_strict_total_order(x, x, x);
            },
            _ => {},
        }
    }

    proof fn lemma_domain_finite() {
        T::lemma_domain_finite();
        T::domain().lemma_map_finite(|x: T::Model| Some(x));
    }

    proof fn lemma_in_domain(&self) {
        match self {
            Some(x) => {
                x.lemma_in_domain();
                let f = |x: T::Model| Some(x);
                assert(f(x.model()) == self.model());
                assert(T::domain().map(f).contains(self.model()));
            },
            None => {},
        }
    }

    fn compare(&self, other: &Self) -> (o: Order) {
        match (self, other) {
            (None, None) => Order::Equal,
            (None, Some(_)) => Order::Less,
            (Some(_), None) => Order::Greater,
            (Some(x), Some(y)) => x.compare(y),
        }
    }

    fn duplicate(&self) -> (c: Self) {
        match self {
            Some(x) => Some(x.duplicate()),
            None => None,
        }
    }
}

impl<T: Finite> Finite for (T,) {
    type Model = (T::Model,);

    open spec fn model(&self) -> (T::Model,) {
        (self.0.model(),)
    }

    open spec fn wf(&self) -> bool {
        self.0.wf()
    }

    open spec fn below(a: (T::Model,), b: (T::Model,)) -> bool {
        T::below(a.0, b.0)
    }

    open spec fn domain() -> Set<(T::Model,)> {
        T::domain().map(|x: T::Model| (x,))
    }

    proof fn lemma_strict_total_order(a: (T::Model,), b: (T::Model,), c: (T::Model,)) {
        T::lemma_strict_total_order(a.0, b.0, c.0);
    }

    proof fn lemma_domain_finite() {
        T::lemma_domain_finite();
        T::domain().lemma_map_finite(|x: T::Model| (x,));
    }

    proof fn lemma_in_domain(&self) {
        self.0.lemma_in_domain();
        let f = |x: T::Model| (x,);
        assert(f(self.0.model()) == self.model());
        assert(T::domain().map(f).contains(self.model()));
    }

    fn compare(&self, other: &Self) -> (o: Order) {
        self.0.compare(&other.0)
    }

    fn duplicate(&self) -> (c: Self) {
        (self.0.duplicate(),)
    }
}

impl<T: Finite, U: Finite> Finite for (T, U) {
    type Model = (T::Model, U::Model);

    open spec fn model(&self) -> (T::Model, U::Model) {
        (self.0.model(), self.1.model())
    }

    open spec fn wf(&self) -> bool {
        self.0.wf() && self.1.wf()
    }

    /// Lexicographic: the first components decide unless they are equal.
    open spec fn below(a: (T::Model, U::Model), b: (T::Model, U::Model)) -> bool {
        T::below(a.0, b.0) || (a.0 == b.0 && U::below(a.1, b.1))
    }

    open spec fn domain() -> Set<(T::Model, U::Model)> {
        pairs(T::domain(), U::domain())
    }

    proof fn lemma_strict_total_order(
        a: (T::Model, U::Model),
        b: (T::Model, U::Model),
        c: (T::Model, U::Model),
    ) {
        T::lemma_strict_total_order(a.0, b.0, c.0);
        U::lemma_strict_total_order(a.1, b.1, c.1);
    }

    proof fn lemma_domain_finite() {
        T::lemma_domain_finite();
        U::lemma_domain_finite();
        lemma_pairs_finite(T::domain(), U::domain());
    }

    proof fn lemma_in_domain(&self) {
        self.0.lemma_in_domain();
        self.1.lemma_in_domain();
    }

    fn compare(&self, other: &Self) -> (o: Order) {
        proof {
            T::lemma_strict_total_order(self.0.model(), other.0.model(), self.0.model());
            U::lemma_strict_total_order(self.1.model(), other.1.model(), self.1.model());
        }
        match self.0.compare(&other.0) {
            Order::Less => Order::Less,
            Order::Greater => Order::Greater,
            Order::Equal => self.1.compare(&other.1),
        }
    }

    fn duplicate(&self) -> (c: Self) {
        (self.0.duplicate(), self.1.duplicate())
    }
}

impl<T: Finite, U: Finite, V: Finite> Finite for (T, U, V) {
    type Model = (T::Model, U::Model, V::Model);

    open spec fn model(&self) -> (T::Model, U::Model, V::Model) {
        (self.0.model(), self.1.model(), self.2.model())
    }

    open spec fn wf(&self) -> bool {
        self.0.wf() && self.1.wf() && self.2.wf()
    }

    /// Lexicographic over the three components.
    open spec fn below(a: (T::Model, U::Model, V::Model), b: (T::Model, U::Model, V::Model)) -> bool {
        T::below(a.0, b.0) || (a.0 == b.0 && (U::below(a.1, b.1) || (a.1 == b.1 && V::below(
            a.2,
            b.2,
        ))))
    }

    open spec fn domain() -> Set<(T::Model, U::Model, V::Model)> {
        pairs(pairs(T::domain(), U::domain()), V::domain()).map(
            |p: ((T::Model, U::Model), V::Model)| (p.0.0, p.0.1, p.1),
        )
    }

    proof fn lemma_strict_total_order(
        a: (T::Model, U::Model, V::Model),
        b: (T::Model, U::Model, V::Model),
        c: (T::Model, U::Model, V::Model),
    ) {
        T::lemma_strict_total_order(a.0, b.0, c.0);
        U::lemma_strict_total_order(a.1, b.1, c.1);
        V::lemma_strict_total_order(a.2, b.2, c.2);
    }

    proof fn lemma_domain_finite() {
        T::lemma_domain_finite();
        U::lemma_domain_finite();
        V::lemma_domain_finite();
        lemma_pairs_finite(T::domain(), U::domain());
        lemma_pairs_finite(pairs(T::domain(), U::domain()), V::domain());
        pairs(pairs(T::domain(), U::domain()), V::domain()).lemma_map_finite(
            |p: ((T::Model, U::Model), V::Model)| (p.0.0, p.0.1, p.1),
        );
    }

    proof fn lemma_in_domain(&self) {
        self.0.lemma_in_domain();
        self.1.lemma_in_domain();
        self.2.lemma_in_domain();
        let f = |p: ((T::Model, U::Model), V::Model)| (p.0.0, p.0.1, p.1);
        let p = ((self.0.model(), self.1.model()), self.2.model());
        assert(f(p) == self.model());
        assert(pairs(pairs(T::domain(), U::domain()), V::domain()).contains(p));
        assert(pairs(pairs(T::domain(), U::domain()), V::domain()).map(f).contains(self.model()));
    }

    fn compare(&self, other: &Self) -> (o: Order) {
        proof {
            T::lemma_strict_total_order(self.0.model(), other.0.model(), self.0.model());
            U::lemma_strict_total_order(self.1.model(), other.1.model(), self.1.model());
            V::lemma_strict_total_order(self.2.model(), other.2.model(), self.2.model());
        }
        match self.0.compare(&other.0) {
            Order::Less => Order::Less,
            Order::Greater => Order::Greater,
            Order::Equal => match self.1.compare(&other.1) {
                Order::Less => Order::Less,
                Order::Greater => Order::Greater,
                Order::Equal => self.2.compare(&other.2),
            },
        }
    }

    fn duplicate(&self) -> (c: Self) {
        (self.0.duplicate(), self.1.duplicate(), self.2.duplicate())
    }
}

} // verus!
