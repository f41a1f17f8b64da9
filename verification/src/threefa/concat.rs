use vstd::prelude::*;
use crate::finite::Finite;
use crate::ordset::{OrdSet, collect, any_of};
use crate::regex::Concat;
use crate::sorted::{canon, image};
use crate::threefa::{ThreeFA, option_set, insert_option};
use crate::threefa::and::{both, pair_up};

verus! {

/// The first operand still matching and the second still waiting: both move,
/// or the pair is gone.
pub open spec fn concat_head_step<X, A: ThreeFA<X>, B: ThreeFA<X>>(
    a: &A,
    b: &B,
    head: Option<(<A::Active as Finite>::Model, <B::Pre as Finite>::Model)>,
    c: X,
) -> Option<(<A::Active as Finite>::Model, <B::Pre as Finite>::Model)> {
    match head {
        Some(h) => both(a.active_step(h.0, c), b.pre_step(h.1, c)),
        None => None,
    }
}

/// The first operand's match ends and the second operand's begins, at one
/// and the same position.
pub open spec fn concat_handover<X, A: ThreeFA<X>, B: ThreeFA<X>>(
    a: &A,
    b: &B,
    head: Option<(<A::Active as Finite>::Model, <B::Pre as Finite>::Model)>,
) -> Option<(<A::Post as Finite>::Model, <B::Active as Finite>::Model)> {
    match head {
        Some(h) => both(a.exited(h.0), b.entered(h.1)),
        None => None,
    }
}

/// The continuations in which the first operand is done and the second is
/// matching, after one more symbol.
pub open spec fn concat_tail_moves<X, A: ThreeFA<X>, B: ThreeFA<X>>(
    a: &A,
    b: &B,
    tail: Set<(<A::Post as Finite>::Model, <B::Active as Finite>::Model)>,
    c: X,
) -> Set<(<A::Post as Finite>::Model, <B::Active as Finite>::Model)> {
    image(
        tail,
        |e: (<A::Post as Finite>::Model, <B::Active as Finite>::Model)|
            both(a.post_step(e.0, c), b.active_step(e.1, c)),
    )
}

/// The continuations in which both operands are done, after one more symbol.
pub open spec fn concat_post_moves<X, A: ThreeFA<X>, B: ThreeFA<X>>(
    a: &A,
    b: &B,
    post: Set<(<A::Post as Finite>::Model, <B::Post as Finite>::Model)>,
    c: X,
) -> Set<(<A::Post as Finite>::Model, <B::Post as Finite>::Model)> {
    image(
        post,
        |e: (<A::Post as Finite>::Model, <B::Post as Finite>::Model)|
            both(a.post_step(e.0, c), b.post_step(e.1, c)),
    )
}

/// The continuations in which the second operand's match can end here.
pub open spec fn concat_exits<X, A: ThreeFA<X>, B: ThreeFA<X>>(
    a: &A,
    b: &B,
    tail: Set<(<A::Post as Finite>::Model, <B::Active as Finite>::Model)>,
) -> Set<(<A::Post as Finite>::Model, <B::Post as Finite>::Model)> {
    image(
        tail,
        |e: (<A::Post as Finite>::Model, <B::Active as Finite>::Model)|
            both(Some(e.0), b.exited(e.1)),
    )
}

/// Whether in some continuation both operands accept.
pub open spec fn concat_any_accepting<X, A: ThreeFA<X>, B: ThreeFA<X>>(
    a: &A,
    b: &B,
    post: Set<(<A::Post as Finite>::Model, <B::Post as Finite>::Model)>,
) -> bool {
    exists|e: (<A::Post as Finite>::Model, <B::Post as Finite>::Model)|
        post.contains(e) && a.post_accepting(e.0) && #[trigger] b.post_accepting(e.1)
}

fn head_step<X: Copy, A: ThreeFA<X>, B: ThreeFA<X>>(
    a: &A,
    b: &B,
    head: Option<(A::Active, B::Pre)>,
    char: X,
) -> (r: Option<(A::Active, B::Pre)>)
    requires
        a.tfa_wf(),
        b.tfa_wf(),
        head.wf(),
    ensures
        r.wf(),
        r.model() == concat_head_step(a, b, head.model(), char),
{
    match head {
        Some(h) => pair_up(a.step_active(h.0, char), b.step_pre(h.1, char)),
        None => None,
    }
}

fn handover<X, A: ThreeFA<X>, B: ThreeFA<X>>(a: &A, b: &B, head: &Option<(A::Active, B::Pre)>) -> (r:
    Option<(A::Post, B::Active)>)
    requires
        a.tfa_wf(),
        b.tfa_wf(),
        head.wf(),
    ensures
        r.wf(),
        r.model() == concat_handover(a, b, head.model()),
{
    match head {
        Some(h) => pair_up(a.exit(h.0.duplicate()), b.enter(h.1.duplicate())),
        None => None,
    }
}

impl<X: Copy, A: ThreeFA<X>, B: ThreeFA<X>> ThreeFA<X> for Concat<A, B> {
    type Pre = (A::Pre, B::Pre);

    /// The one position at which the first operand is still matching while
    /// the second is still waiting, and the continuations in which the first
    /// operand is done and the second is matching.
    type Active = (Option<(A::Active, B::Pre)>, OrdSet<(A::Post, B::Active)>);

    /// The continuations in which both operands are done.
    type Post = OrdSet<(A::Post, B::Post)>;

    open spec fn tfa_wf(&self) -> bool {
        self.0.tfa_wf() && self.1.tfa_wf()
    }

    open spec fn pre_start(&self) -> (<A::Pre as Finite>::Model, <B::Pre as Finite>::Model) {
        (self.0.pre_start(), self.1.pre_start())
    }

    open spec fn pre_step(
        &self,
        s: (<A::Pre as Finite>::Model, <B::Pre as Finite>::Model),
        c: X,
    ) -> Option<(<A::Pre as Finite>::Model, <B::Pre as Finite>::Model)> {
        both(self.0.pre_step(s.0, c), self.1.pre_step(s.1, c))
    }

    /// The pair moves, every continuation moves, and the first operand hands
    /// over to the second where it can. The step is missing when nothing is left.
    open spec fn active_step(
        &self,
        s: (
            Option<(<A::Active as Finite>::Model, <B::Pre as Finite>::Model)>,
            Seq<(<A::Post as Finite>::Model, <B::Active as Finite>::Model)>,
        ),
        c: X,
    ) -> Option<
        (
            Option<(<A::Active as Finite>::Model, <B::Pre as Finite>::Model)>,
            Seq<(<A::Post as Finite>::Model, <B::Active as Finite>::Model)>,
        ),
    > {
        let head = concat_head_step(&self.0, &self.1, s.0, c);
        let tail = concat_tail_moves(&self.0, &self.1, s.1.to_set(), c).union(
            option_set(concat_handover(&self.0, &self.1, head)),
        );
        if head is Some || tail != Set::<
            (<A::Post as Finite>::Model, <B::Active as Finite>::Model),
        >::empty() {
            Some((head, canon::<(A::Post, B::Active)>(tail)))
        } else {
            None
        }
    }

    open spec fn post_step(
        &self,
        s: Seq<(<A::Post as Finite>::Model, <B::Post as Finite>::Model)>,
        c: X,
    ) -> Option<Seq<(<A::Post as Finite>::Model, <B::Post as Finite>::Model)>> {
        let post = concat_post_moves(&self.0, &self.1, s.to_set(), c);
        if post != Set::<(<A::Post as Finite>::Model, <B::Post as Finite>::Model)>::empty() {
            Some(canon::<(A::Post, B::Post)>(post))
        } else {
            None
        }
    }

    open spec fn post_accepting(
        &self,
        s: Seq<(<A::Post as Finite>::Model, <B::Post as Finite>::Model)>,
    ) -> bool {
        concat_any_accepting(&self.0, &self.1, s.to_set())
    }

    /// The first operand's match begins; the second operand's begins too where
    /// the first can end at once.
    open spec fn entered(&self, s: (<A::Pre as Finite>::Model, <B::Pre as Finite>::Model)) -> Option<
        (
            Option<(<A::Active as Finite>::Model, <B::Pre as Finite>::Model)>,
            Seq<(<A::Post as Finite>::Model, <B::Active as Finite>::Model)>,
        ),
    > {
        match self.0.entered(s.0) {
            Some(x) => Some(
                (
                    Some((x, s.1)),
                    canon::<(A::Post, B::Active)>(
                        option_set(concat_handover(&self.0, &self.1, Some((x, s.1)))),
                    ),
                ),
            ),
            None => None,
        }
    }

    /// The match ends where the second operand's can. The exit is missing
    /// when no continuation lets it.
    open spec fn exited(
        &self,
        s: (
            Option<(<A::Active as Finite>::Model, <B::Pre as Finite>::Model)>,
            Seq<(<A::Post as Finite>::Model, <B::Active as Finite>::Model)>,
        ),
    ) -> Option<Seq<(<A::Post as Finite>::Model, <B::Post as Finite>::Model)>> {
        let post = concat_exits(&self.0, &self.1, s.1.to_set());
        if post != Set::<(<A::Post as Finite>::Model, <B::Post as Finite>::Model)>::empty() {
            Some(canon::<(A::Post, B::Post)>(post))
        } else {
            None
        }
    }

    fn initial(&self) -> (s: Self::Pre) {
        (self.0.initial(), self.1.initial())
    }

    fn step_pre(&self, state: Self::Pre, char: X) -> (r: Option<Self::Pre>) {
        pair_up(self.0.step_pre(state.0, char), self.1.step_pre(state.1, char))
    }

    fn step_active(&self, state: Self::Active, char: X) -> (r: Option<Self::Active>) {
        let a = &self.0;
        let b = &self.1;
        let head = head_step(a, b, state.0, char);
        let f = |e: &(A::Post, B::Active)| -> (r: Option<(A::Post, B::Active)>)
            requires
                a.tfa_wf(),
                b.tfa_wf(),
                e.wf(),
            ensures
                r.wf(),
                r.model() == both(a.post_step(e.model().0, char), b.active_step(e.model().1, char)),
            { pair_up(a.step_post(e.0.duplicate(), char), b.step_active(e.1.duplicate(), char)) };
        let mut tail = collect(
            &state.1,
            f,
            Ghost(
                |e: (<A::Post as Finite>::Model, <B::Active as Finite>::Model)|
                    both(a.post_step(e.0, char), b.active_step(e.1, char)),
            ),
        );
        insert_option(&mut tail, handover(a, b, &head));
        proof {
            tail.lemma_canonical();
        }
        if head.is_some() || !tail.is_empty() {
            Some((head, tail))
        } else {
            None
        }
    }

    fn step_post(&self, state: Self::Post, char: X) -> (r: Option<Self::Post>) {
        let a = &self.0;
        let b = &self.1;
        let f = |e: &(A::Post, B::Post)| -> (r: Option<(A::Post, B::Post)>)
            requires
                a.tfa_wf(),
                b.tfa_wf(),
                e.wf(),
            ensures
                r.wf(),
                r.model() == both(a.post_step(e.model().0, char), b.post_step(e.model().1, char)),
            { pair_up(a.step_post(e.0.duplicate(), char), b.step_post(e.1.duplicate(), char)) };
        let post = collect(
            &state,
            f,
            Ghost(
                |e: (<A::Post as Finite>::Model, <B::Post as Finite>::Model)|
                    both(a.post_step(e.0, char), b.post_step(e.1, char)),
            ),
        );
        proof {
            post.lemma_canonical();
        }
        if !post.is_empty() {
            Some(post)
        } else {
            None
        }
    }

    fn accept(&self, state: &Self::Post) -> (b: bool) {
        let a = &self.0;
        let b = &self.1;
        let f = |e: &(A::Post, B::Post)| -> (r: bool)
            requires
                a.tfa_wf(),
                b.tfa_wf(),
                e.wf(),
            ensures
                r == (a.post_accepting(e.model().0) && b.post_accepting(e.model().1)),
            { a.accept(&e.0) && b.accept(&e.1) };
        let ghost p = |e: (<A::Post as Finite>::Model, <B::Post as Finite>::Model)|
            a.post_accepting(e.0) && b.post_accepting(e.1);
        let found = any_of(state, f, Ghost(p));
        proof {
            if concat_any_accepting(a, b, state@.to_set()) {
                let e = choose|e: (<A::Post as Finite>::Model, <B::Post as Finite>::Model)|
                    state@.to_set().contains(e) && a.post_accepting(e.0)
                        && #[trigger] b.post_accepting(e.1);
                assert(p(e));
            }
            if found {
                let e = choose|e: (<A::Post as Finite>::Model, <B::Post as Finite>::Model)|
                    state@.to_set().contains(e) && #[trigger] p(e);
                assert(a.post_accepting(e.0) && b.post_accepting(e.1));
            }
        }
        found
    }

    fn enter(&self, state: Self::Pre) -> (r: Option<Self::Active>) {
        match self.0.enter(state.0) {
            Some(x) => {
                let head = Some((x, state.1));
                let tail = OrdSet::from_option(handover(&self.0, &self.1, &head));
                proof {
                    tail.lemma_canonical();
                }
                Some((head, tail))
            },
            None => None,
        }
    }

    fn exit(&self, state: Self::Active) -> (r: Option<Self::Post>) {
        let b = &self.1;
        let f = |e: &(A::Post, B::Active)| -> (r: Option<(A::Post, B::Post)>)
            requires
                b.tfa_wf(),
                e.wf(),
            ensures
                r.wf(),
                r.model() == both(Some(e.model().0), b.exited(e.model().1)),
            { pair_up(Some(e.0.duplicate()), b.exit(e.1.duplicate())) };
        let post = collect(
            &state.1,
            f,
            Ghost(
                |e: (<A::Post as Finite>::Model, <B::Active as Finite>::Model)|
                    both(Some(e.0), b.exited(e.1)),
            ),
        );
        proof {
            post.lemma_canonical();
        }
        if !post.is_empty() {
            Some(post)
        } else {
            None
        }
    }
}

} // verus!
