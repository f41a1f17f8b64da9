use vstd::prelude::*;
use crate::finite::Finite;
use crate::ordset::{OrdSet, collect, collect_into, any_of};
use crate::regex::Plus;
use crate::sorted::{canon, image, lemma_image_insert, lemma_image_empty, lemma_take_to_set};
use crate::threefa::{ThreeFA, opt_pre_step, opt_step_pre, post_moves};
use crate::threefa::and::{both, pair_up};

verus! {

/// A trace is the set of the `Post` states of the repetitions that are
/// complete. It steps if each of its states does.
pub open spec fn trace_step<X, A: ThreeFA<X>>(
    a: &A,
    trace: Seq<<A::Post as Finite>::Model>,
    c: X,
) -> Option<Seq<<A::Post as Finite>::Model>> {
    if forall|p: <A::Post as Finite>::Model|
        trace.to_set().contains(p) ==> (#[trigger] a.post_step(p, c)) is Some {
        Some(canon::<A::Post>(post_moves(a, trace.to_set(), c)))
    } else {
        None
    }
}

/// A trace with the repetition under way: both step, or the whole is gone.
pub open spec fn plus_move<X, A: ThreeFA<X>>(
    a: &A,
    e: (Seq<<A::Post as Finite>::Model>, <A::Active as Finite>::Model),
    c: X,
) -> Option<(Seq<<A::Post as Finite>::Model>, <A::Active as Finite>::Model)> {
    both(trace_step(a, e.0, c), a.active_step(e.1, c))
}

/// The trace once the repetition under way is complete, if it can end here.
pub open spec fn plus_close<X, A: ThreeFA<X>>(
    a: &A,
    e: (Seq<<A::Post as Finite>::Model>, <A::Active as Finite>::Model),
) -> Option<Seq<<A::Post as Finite>::Model>> {
    match a.exited(e.1) {
        Some(x) => Some(canon::<A::Post>(e.0.to_set().insert(x))),
        None => None,
    }
}

/// The repetition under way ends and the next one begins at the `Pre` state
/// `pre`, if both can be.
pub open spec fn plus_again<X, A: ThreeFA<X>>(
    a: &A,
    pre: Option<<A::Pre as Finite>::Model>,
    e: (Seq<<A::Post as Finite>::Model>, <A::Active as Finite>::Model),
) -> Option<(Seq<<A::Post as Finite>::Model>, <A::Active as Finite>::Model)> {
    match pre {
        Some(p) => both(plus_close(a, e), a.entered(p)),
        None => None,
    }
}

/// The traces after one more symbol, each with its repetition under way.
pub open spec fn plus_moves<X, A: ThreeFA<X>>(
    a: &A,
    set: Set<(Seq<<A::Post as Finite>::Model>, <A::Active as Finite>::Model)>,
    c: X,
) -> Set<(Seq<<A::Post as Finite>::Model>, <A::Active as Finite>::Model)> {
    image(set, |e: (Seq<<A::Post as Finite>::Model>, <A::Active as Finite>::Model)| plus_move(a, e, c))
}

/// The traces in which the repetition under way ends and the next one begins.
pub open spec fn plus_agains<X, A: ThreeFA<X>>(
    a: &A,
    pre: Option<<A::Pre as Finite>::Model>,
    set: Set<(Seq<<A::Post as Finite>::Model>, <A::Active as Finite>::Model)>,
) -> Set<(Seq<<A::Post as Finite>::Model>, <A::Active as Finite>::Model)> {
    image(
        set,
        |e: (Seq<<A::Post as Finite>::Model>, <A::Active as Finite>::Model)| plus_again(a, pre, e),
    )
}

/// The traces after one more symbol, all repetitions being complete.
pub open spec fn plus_post_moves<X, A: ThreeFA<X>>(
    a: &A,
    set: Set<Seq<<A::Post as Finite>::Model>>,
    c: X,
) -> Set<Seq<<A::Post as Finite>::Model>> {
    image(set, |t: Seq<<A::Post as Finite>::Model>| trace_step(a, t, c))
}

/// The traces in which the repetition under way can end here.
pub open spec fn plus_exits<X, A: ThreeFA<X>>(
    a: &A,
    set: Set<(Seq<<A::Post as Finite>::Model>, <A::Active as Finite>::Model)>,
) -> Set<Seq<<A::Post as Finite>::Model>> {
    image(set, |e: (Seq<<A::Post as Finite>::Model>, <A::Active as Finite>::Model)| plus_close(a, e))
}

/// Whether every state of the trace is accepting.
pub open spec fn trace_accepting<X, A: ThreeFA<X>>(
    a: &A,
    trace: Seq<<A::Post as Finite>::Model>,
) -> bool {
    forall|p: <A::Post as Finite>::Model|
        trace.to_set().contains(p) ==> #[trigger] a.post_accepting(p)
}

/// Whether some trace is accepting.
pub open spec fn plus_any_accepting<X, A: ThreeFA<X>>(
    a: &A,
    set: Set<Seq<<A::Post as Finite>::Model>>,
) -> bool {
    exists|t: Seq<<A::Post as Finite>::Model>| set.contains(t) && #[trigger] trace_accepting(a, t)
}

/// Steps every state of a trace; the trace is gone if one of them cannot step.
pub fn step_trace<X: Copy, A: ThreeFA<X>>(a: &A, trace: &OrdSet<A::Post>, char: X) -> (r: Option<
    OrdSet<A::Post>,
>)
    requires
        a.tfa_wf(),
        trace.wf(),
    ensures
        r.wf(),
        r.model() == trace_step(a, trace@, char),
{
    let ghost f = |s: <A::Post as Finite>::Model| a.post_step(s, char);
    let mut out: OrdSet<A::Post> = OrdSet::new();
    let n = trace.len();
    let mut i: usize = 0;
    proof {
        assert(trace@.take(0).to_set() =~= Set::empty());
        lemma_image_empty(f);
    }
    while i < n
        invariant
            a.tfa_wf(),
            trace.wf(),
            out.wf(),
            n == trace@.len(),
            i <= n,
            f == |s: <A::Post as Finite>::Model| a.post_step(s, char),
            out.elems() == image(trace@.take(i as int).to_set(), f),
            forall|k: int| 0 <= k < i ==> (#[trigger] a.post_step(trace@[k], char)) is Some,
        decreases n - i,
    {
        proof {
            lemma_take_to_set(trace@, i as int);
            lemma_image_insert(trace@.take(i as int).to_set(), f, trace@[i as int]);
        }
        match a.step_post(trace.get(i).duplicate(), char) {
            Some(t) => {
                out.insert(t);
            },
            None => {
                proof {
                    assert(trace@.to_set().contains(trace@[i as int]));
                }
                return None;
            },
        }
        i += 1;
    }
    proof {
        assert(trace@.take(n as int) =~= trace@);
        out.lemma_canonical();
        assert forall|p: <A::Post as Finite>::Model| trace@.to_set().contains(p) implies (
        #[trigger] a.post_step(p, char)) is Some by {
            let k = choose|k: int| 0 <= k < trace@.len() && trace@[k] == p;
            assert(a.post_step(trace@[k], char) is Some);
        }
    }
    Some(out)
}

/// Tells whether every state of a trace is accepting.
pub fn accept_trace<X, A: ThreeFA<X>>(a: &A, trace: &OrdSet<A::Post>) -> (b: bool)
    requires
        a.tfa_wf(),
        trace.wf(),
    ensures
        b == trace_accepting(a, trace@),
{
    let n = trace.len();
    let mut i: usize = 0;
    while i < n
        invariant
            a.tfa_wf(),
            trace.wf(),
            n == trace@.len(),
            i <= n,
            forall|k: int| 0 <= k < i ==> a.post_accepting(#[trigger] trace@[k]),
        decreases n - i,
    {
        if !a.accept(trace.get(i)) {
            proof {
                assert(trace@.to_set().contains(trace@[i as int]));
            }
            return false;
        }
        i += 1;
    }
    proof {
        assert forall|p: <A::Post as Finite>::Model| trace@.to_set().contains(p) implies #[trigger] a.post_accepting(
            p,
        ) by {
            let k = choose|k: int| 0 <= k < trace@.len() && trace@[k] == p;
            assert(a.post_accepting(trace@[k]));
        }
    }
    true
}

fn move_trace<X: Copy, A: ThreeFA<X>>(a: &A, e: &(OrdSet<A::Post>, A::Active), char: X) -> (r: Option<
    (OrdSet<A::Post>, A::Active),
>)
    requires
        a.tfa_wf(),
        e.wf(),
    ensures
        r.wf(),
        r.model() == plus_move(a, e.model(), char),
{
    match step_trace(a, &e.0, char) {
        Some(t) => pair_up(Some(t), a.step_active(e.1.duplicate(), char)),
        None => None,
    }
}

fn close_trace<X, A: ThreeFA<X>>(a: &A, e: &(OrdSet<A::Post>, A::Active)) -> (r: Option<
    OrdSet<A::Post>,
>)
    requires
        a.tfa_wf(),
        e.wf(),
    ensures
        r.wf(),
        r.model() == plus_close(a, e.model()),
{
    match a.exit(e.1.duplicate()) {
        Some(x) => {
            let mut t = e.0.duplicate();
            t.insert(x);
            proof {
                t.lemma_canonical();
            }
            Some(t)
        },
        None => None,
    }
}

fn begin_again<X, A: ThreeFA<X>>(a: &A, pre: &Option<A::Pre>, e: &(OrdSet<A::Post>, A::Active)) -> (r:
    Option<(OrdSet<A::Post>, A::Active)>)
    requires
        a.tfa_wf(),
        pre.wf(),
        e.wf(),
    ensures
        r.wf(),
        r.model() == plus_again(a, pre.model(), e.model()),
{
    match pre {
        Some(p) => match close_trace(a, e) {
            Some(t) => pair_up(Some(t), a.enter(p.duplicate())),
            None => None,
        },
        None => None,
    }
}

impl<X: Copy, A: ThreeFA<X>> ThreeFA<X> for Plus<A> {
    type Pre = A::Pre;

    /// The `Pre` state, as long as another repetition may begin, and the
    /// traces: each the `Post` states of the repetitions that are complete,
    /// with the `Active` state of the repetition under way.
    type Active = (Option<A::Pre>, OrdSet<(OrdSet<A::Post>, A::Active)>);

    /// The traces, each the `Post` states of its repetitions.
    type Post = OrdSet<OrdSet<A::Post>>;

    open spec fn tfa_wf(&self) -> bool {
        self.0.tfa_wf()
    }

    open spec fn pre_start(&self) -> <A::Pre as Finite>::Model {
        self.0.pre_start()
    }

    open spec fn pre_step(&self, s: <A::Pre as Finite>::Model, c: X) -> Option<
        <A::Pre as Finite>::Model,
    > {
        self.0.pre_step(s, c)
    }

    /// Every trace moves with its repetition, and wherever that repetition
    /// can end and another begin, a trace is added in which it does. The step
    /// is missing when nothing is left.
    open spec fn active_step(
        &self,
        s: (
            Option<<A::Pre as Finite>::Model>,
            Seq<(Seq<<A::Post as Finite>::Model>, <A::Active as Finite>::Model)>,
        ),
        c: X,
    ) -> Option<
        (
            Option<<A::Pre as Finite>::Model>,
            Seq<(Seq<<A::Post as Finite>::Model>, <A::Active as Finite>::Model)>,
        ),
    > {
        let pre = opt_pre_step(&self.0, s.0, c);
        let moved = plus_moves(&self.0, s.1.to_set(), c);
        let traces = moved.union(plus_agains(&self.0, pre, moved));
        if pre is Some || traces != Set::<
            (Seq<<A::Post as Finite>::Model>, <A::Active as Finite>::Model),
        >::empty() {
            Some((pre, canon::<(OrdSet<A::Post>, A::Active)>(traces)))
        } else {
            None
        }
    }

    open spec fn post_step(&self, s: Seq<Seq<<A::Post as Finite>::Model>>, c: X) -> Option<
        Seq<Seq<<A::Post as Finite>::Model>>,
    > {
        let traces = plus_post_moves(&self.0, s.to_set(), c);
        if traces != Set::<Seq<<A::Post as Finite>::Model>>::empty() {
            Some(canon::<OrdSet<A::Post>>(traces))
        } else {
            None
        }
    }

    /// Accepting when in some trace every repetition is accepted.
    open spec fn post_accepting(&self, s: Seq<Seq<<A::Post as Finite>::Model>>) -> bool {
        plus_any_accepting(&self.0, s.to_set())
    }

    /// The first repetition begins, with nothing complete yet.
    open spec fn entered(&self, s: <A::Pre as Finite>::Model) -> Option<
        (
            Option<<A::Pre as Finite>::Model>,
            Seq<(Seq<<A::Post as Finite>::Model>, <A::Active as Finite>::Model)>,
        ),
    > {
        match self.0.entered(s) {
            Some(x) => Some((Some(s), seq![(Seq::empty(), x)])),
            None => None,
        }
    }

    /// The match ends where the repetition under way can. The exit is missing
    /// when no trace lets it.
    open spec fn exited(
        &self,
        s: (
            Option<<A::Pre as Finite>::Model>,
            Seq<(Seq<<A::Post as Finite>::Model>, <A::Active as Finite>::Model)>,
        ),
    ) -> Option<Seq<Seq<<A::Post as Finite>::Model>>> {
        let traces = plus_exits(&self.0, s.1.to_set());
        if traces != Set::<Seq<<A::Post as Finite>::Model>>::empty() {
            Some(canon::<OrdSet<A::Post>>(traces))
        } else {
            None
        }
    }

    fn initial(&self) -> (s: Self::Pre) {
        self.0.initial()
    }

    fn step_pre(&self, state: Self::Pre, char: X) -> (r: Option<Self::Pre>) {
        self.0.step_pre(state, char)
    }

    fn step_active(&self, state: Self::Active, char: X) -> (r: Option<Self::Active>) {
        let a = &self.0;
        let pre = opt_step_pre(a, state.0, char);
        let f = |e: &(OrdSet<A::Post>, A::Active)| -> (r: Option<(OrdSet<A::Post>, A::Active)>)
            requires
                a.tfa_wf(),
                e.wf(),
            ensures
                r.wf(),
                r.model() == plus_move(a, e.model(), char),
            { move_trace(a, e, char) };
        let moved = collect(
            &state.1,
            f,
            Ghost(
                |e: (Seq<<A::Post as Finite>::Model>, <A::Active as Finite>::Model)|
                    plus_move(a, e, char),
            ),
        );
        let g = |e: &(OrdSet<A::Post>, A::Active)| -> (r: Option<(OrdSet<A::Post>, A::Active)>)
            requires
                a.tfa_wf(),
                pre.wf(),
                e.wf(),
            ensures
                r.wf(),
                r.model() == plus_again(a, pre.model(), e.model()),
            { begin_again(a, &pre, e) };
        let mut traces = moved.duplicate();
        collect_into(
            &moved,
            g,
            &mut traces,
            Ghost(
                |e: (Seq<<A::Post as Finite>::Model>, <A::Active as Finite>::Model)|
                    plus_again(a, pre.model(), e),
            ),
        );
        proof {
            traces.lemma_canonical();
        }
        if pre.is_some() || !traces.is_empty() {
            Some((pre, traces))
        } else {
            None
        }
    }

    fn step_post(&self, state: Self::Post, char: X) -> (r: Option<Self::Post>) {
        let a = &self.0;
        let f = |t: &OrdSet<A::Post>| -> (r: Option<OrdSet<A::Post>>)
            requires
                a.tfa_wf(),
                t.wf(),
            ensures
                r.wf(),
                r.model() == trace_step(a, t.model(), char),
            { step_trace(a, t, char) };
        let traces = collect(
            &state,
            f,
            Ghost(|t: Seq<<A::Post as Finite>::Model>| trace_step(a, t, char)),
        );
        proof {
            traces.lemma_canonical();
        }
        if !traces.is_empty() {
            Some(traces)
        } else {
            None
        }
    }

    fn accept(&self, state: &Self::Post) -> (b: bool) {
        let a = &self.0;
        let f = |t: &OrdSet<A::Post>| -> (r: bool)
            requires
                a.tfa_wf(),
                t.wf(),
            ensures
                r == trace_accepting(a, t.model()),
            { accept_trace(a, t) };
        let ghost p = |t: Seq<<A::Post as Finite>::Model>| trace_accepting(a, t);
        let found = any_of(state, f, Ghost(p));
        proof {
            if plus_any_accepting(a, state@.to_set()) {
                let t = choose|t: Seq<<A::Post as Finite>::Model>|
                    state@.to_set().contains(t) && #[trigger] trace_accepting(a, t);
                assert(p(t));
            }
            if found {
                let t = choose|t: Seq<<A::Post as Finite>::Model>|
                    state@.to_set().contains(t) && #[trigger] p(t);
                assert(trace_accepting(a, t));
            }
        }
        found
    }

    fn enter(&self, state: Self::Pre) -> (r: Option<Self::Active>) {
        match self.0.enter(state.duplicate()) {
            Some(x) => Some((Some(state), OrdSet::singleton((OrdSet::new(), x)))),
            None => None,
        }
    }

    fn exit(&self, state: Self::Active) -> (r: Option<Self::Post>) {
        let a = &self.0;
        let f = |e: &(OrdSet<A::Post>, A::Active)| -> (r: Option<OrdSet<A::Post>>)
            requires
                a.tfa_wf(),
                e.wf(),
            ensures
                r.wf(),
                r.model() == plus_close(a, e.model()),
            { close_trace(a, e) };
        let traces = collect(
            &state.1,
            f,
            Ghost(
                |e: (Seq<<A::Post as Finite>::Model>, <A::Active as Finite>::Model)|
                    plus_close(a, e),
            ),
        );
        proof {
            traces.lemma_canonical();
        }
        if !traces.is_empty() {
            Some(traces)
        } else {
            None
        }
    }
}

} // verus!
