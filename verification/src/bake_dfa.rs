//! Baking an automaton into a transition table.
//!
//! The states that words over the alphabet lead to are numbered in the order
//! in which a depth-first traversal from the initial state meets them, and the
//! transitions between them are written down by number. The table is an
//! automaton of its own, and on words over the alphabet it accepts what the
//! automaton it was baked from accepts.
use vstd::prelude::*;
use vstd::laws_eq::obeys_concrete_eq;
use crate::dfa::{
    Dfa,
    accepts,
    over,
    reachable,
    run,
    run_from,
    closed,
    lemma_start_reachable,
    lemma_successor_reachable,
    lemma_closed_holds_run,
};
use crate::finite::Finite;
use crate::ordmap::OrdMap;

verus! {

/// A transition table: for each state, numbered from 0, whether it is
/// accepting, and the numbers of the states that the symbols lead to. State 0
/// is the initial state. A symbol without an entry is rejected.
#[derive(Debug, Clone)]
pub struct BakedDfa<X>(Vec<(bool, Vec<(X, usize)>)>);

impl<X> View for BakedDfa<X> {
    type V = Seq<(bool, Vec<(X, usize)>)>;

    /// The rows of the table, by state number.
    closed spec fn view(&self) -> Seq<(bool, Vec<(X, usize)>)> {
        self.0@
    }
}

impl<X> BakedDfa<X> {
    /// The rows of the table, by state number.
    pub fn states(&self) -> (rows: &Vec<(bool, Vec<(X, usize)>)>)
        ensures
            rows@ == self@,
    {
        &self.0
    }
}

/// The target that `row` gives for the symbol `c`: that of the first entry for `c`.
pub open spec fn row_target<X>(row: Seq<(X, usize)>, c: X) -> Option<usize>
    decreases row.len(),
{
    if row.len() == 0 {
        None
    } else if row[0].0 == c {
        Some(row[0].1)
    } else {
        row_target(row.drop_first(), c)
    }
}

/// The transition of the table `t` from state `s` on `c`.
pub open spec fn table_step<X>(t: Seq<(bool, Vec<(X, usize)>)>, s: usize, c: X) -> Option<usize> {
    if s < t.len() {
        row_target(t[s as int].1@, c)
    } else {
        None
    }
}

/// Whether the table `t` says that the state `s` is accepting.
pub open spec fn table_accepting<X>(t: Seq<(bool, Vec<(X, usize)>)>, s: usize) -> bool {
    s < t.len() && t[s as int].0
}

/// An entry added at the end of a row counts only for a symbol that had none.
pub proof fn lemma_row_push<X>(row: Seq<(X, usize)>, e: (X, usize), c: X)
    ensures
        row_target(row.push(e), c) == match row_target(row, c) {
            Some(v) => Some(v),
            None => if e.0 == c {
                Some(e.1)
            } else {
                None
            },
        },
    decreases row.len(),
{
    if row.len() == 0 {
        assert(row.push(e).drop_first() =~= row);
    } else {
        assert(row.push(e).drop_first() =~= row.drop_first().push(e));
        lemma_row_push(row.drop_first(), e, c);
    }
}

/// Looks up the target of `c` in a row.
pub fn find_target<X: Copy + PartialEq>(row: &Vec<(X, usize)>, c: X) -> (r: Option<usize>)
    requires
        obeys_concrete_eq::<X>(),
    ensures
        r == row_target(row@, c),
{
    let n = row.len();
    let mut i: usize = 0;
    proof {
        reveal(obeys_concrete_eq);
        assert(row@.skip(0) =~= row@);
    }
    while i < n
        invariant
            n == row@.len(),
            i <= n,
            obeys_concrete_eq::<X>(),
            row_target(row@, c) == row_target(row@.skip(i as int), c),
        decreases n - i,
    {
        proof {
            reveal(obeys_concrete_eq);
            assert(row@.skip(i as int)[0] == row@[i as int]);
            assert(row@.skip(i as int).drop_first() =~= row@.skip(i + 1));
        }
        if row[i].0 == c {
            return Some(row[i].1);
        }
        i += 1;
    }
    None
}

impl<X: Copy + PartialEq> Dfa<X> for BakedDfa<X> {
    type State = usize;

    /// `==` on symbols must decide equality.
    open spec fn dfa_wf(&self) -> bool {
        obeys_concrete_eq::<X>()
    }

    open spec fn start(&self) -> usize {
        0
    }

    open spec fn step(&self, s: usize, c: X) -> Option<usize> {
        table_step(self@, s, c)
    }

    open spec fn accepting(&self, s: usize) -> bool {
        table_accepting(self@, s)
    }

    fn initial(&self) -> (s: Self::State) {
        0
    }

    fn next(&self, state: Self::State, char: X) -> (r: Option<Self::State>) {
        if state < self.0.len() {
            find_target(&self.0[state].1, char)
        } else {
            None
        }
    }

    fn accept(&self, state: &Self::State) -> (b: bool) {
        *state < self.0.len() && self.0[*state].0
    }
}

impl<'a, X: Copy + PartialEq> Dfa<&'a X> for BakedDfa<X> {
    type State = usize;

    /// `==` on symbols must decide equality.
    open spec fn dfa_wf(&self) -> bool {
        obeys_concrete_eq::<X>()
    }

    open spec fn start(&self) -> usize {
        0
    }

    open spec fn step(&self, s: usize, c: &'a X) -> Option<usize> {
        table_step(self@, s, *c)
    }

    open spec fn accepting(&self, s: usize) -> bool {
        table_accepting(self@, s)
    }

    fn initial(&self) -> (s: Self::State) {
        0
    }

    fn next(&self, state: Self::State, char: &'a X) -> (r: Option<Self::State>) {
        if state < self.0.len() {
            find_target(&self.0[state].1, *char)
        } else {
            None
        }
    }

    fn accept(&self, state: &Self::State) -> (b: bool) {
        *state < self.0.len() && self.0[*state].0
    }
}

/// The row of the state `s`: an entry for each symbol of the alphabet that
/// leads somewhere from `s`, in the order of the alphabet, with the number
/// that `numbers` gives to the state that the symbol leads to.
pub open spec fn row_of<X, D: Dfa<X>>(
    d: &D,
    alphabet: Seq<X>,
    numbers: Map<<D::State as Finite>::Model, usize>,
    s: <D::State as Finite>::Model,
) -> Seq<(X, usize)>
    decreases alphabet.len(),
{
    if alphabet.len() == 0 {
        Seq::empty()
    } else {
        let before = row_of(d, alphabet.drop_last(), numbers, s);
        match d.step(s, alphabet.last()) {
            Some(t) => before.push((alphabet.last(), numbers[t])),
            None => before,
        }
    }
}

/// Whether every state that a symbol of the alphabet leads to from `s` has a number.
pub open spec fn leads_inside<X, D: Dfa<X>>(
    d: &D,
    alphabet: Seq<X>,
    numbers: Map<<D::State as Finite>::Model, usize>,
    s: <D::State as Finite>::Model,
) -> bool {
    forall|c: X|
        alphabet.contains(c) && (#[trigger] d.step(s, c)) is Some ==> numbers.dom().contains(
            d.step(s, c).unwrap(),
        )
}

/// Whether row `i` of the table is the row of the state numbered `i`, all of
/// whose successors have numbers.
pub open spec fn row_complete<X, D: Dfa<X>>(
    d: &D,
    alphabet: Seq<X>,
    table: Seq<(bool, Vec<(X, usize)>)>,
    numbers: Map<<D::State as Finite>::Model, usize>,
    names: Seq<<D::State as Finite>::Model>,
    i: int,
) -> bool {
    &&& leads_inside(d, alphabet, numbers, names[i])
    &&& table[i].1@ == row_of(d, alphabet, numbers, names[i])
}

/// The number of each state that `names` lists: its position.
pub open spec fn numbers_of<M>(names: Seq<M>) -> Map<M, usize> {
    Map::new(|s: M| names.contains(s), |s: M| names.index_of(s) as usize)
}

/// Whether `names` and `numbers` number the same states, each way round, and
/// the table says of each whether it is accepting.
pub open spec fn numbered<X, D: Dfa<X>>(
    d: &D,
    alphabet: Seq<X>,
    table: Seq<(bool, Vec<(X, usize)>)>,
    numbers: Map<<D::State as Finite>::Model, usize>,
    names: Seq<<D::State as Finite>::Model>,
) -> bool {
    &&& names.len() == table.len()
    &&& forall|i: int|
        0 <= i < names.len() ==> numbers.dom().contains(#[trigger] names[i]) && numbers[names[i]]
            == i
    &&& forall|s: <D::State as Finite>::Model| #[trigger]
        numbers.dom().contains(s) ==> numbers[s] < names.len() && names[numbers[s] as int] == s
    &&& forall|i: int| 0 <= i < names.len() ==> (#[trigger] table[i]).0 == d.accepting(names[i])
    &&& forall|i: int| 0 <= i < names.len() ==> reachable(d, alphabet, #[trigger] names[i])
}

/// Whether a symbol of the alphabet leads from `s` to a state that is not in `seen`.
pub open spec fn has_new<X, D: Dfa<X>>(
    d: &D,
    alphabet: Seq<X>,
    seen: Set<<D::State as Finite>::Model>,
    s: <D::State as Finite>::Model,
) -> bool {
    exists|c: X|
        alphabet.contains(c) && (#[trigger] d.step(s, c)) is Some && !seen.contains(
            d.step(s, c).unwrap(),
        )
}

/// Whether `t` is the first state, in the order of the alphabet, that a
/// symbol leads to from `s` and that is not in `seen`.
pub open spec fn first_new<X, D: Dfa<X>>(
    d: &D,
    alphabet: Seq<X>,
    seen: Set<<D::State as Finite>::Model>,
    s: <D::State as Finite>::Model,
    t: <D::State as Finite>::Model,
) -> bool {
    exists|j: int|
        0 <= j < alphabet.len() && #[trigger] d.step(s, alphabet[j]) == Some(t) && !seen.contains(
            t,
        ) && forall|k: int|
            0 <= k < j && (#[trigger] d.step(s, alphabet[k])) is Some ==> seen.contains(
                d.step(s, alphabet[k]).unwrap(),
            )
}

/// How a depth-first traversal goes on after the states `names[0]` to
/// `names[i]`: from the latest of them that leads to a state not yet met, to
/// the first such state.
pub open spec fn discovered<X, D: Dfa<X>>(
    d: &D,
    alphabet: Seq<X>,
    names: Seq<<D::State as Finite>::Model>,
    i: int,
) -> bool {
    let seen = names.take(i + 1).to_set();
    exists|k: int|
        0 <= k <= i && #[trigger] first_new(d, alphabet, seen, names[k], names[i + 1]) && forall|
            m: int,
        |
            k < m <= i ==> !has_new(d, alphabet, seen, #[trigger] names[m])
}

/// Whether `names` lists states in the order in which a depth-first traversal
/// that tries the symbols in the order of the alphabet meets them.
pub open spec fn depth_first<X, D: Dfa<X>>(
    d: &D,
    alphabet: Seq<X>,
    names: Seq<<D::State as Finite>::Model>,
) -> bool {
    forall|i: int| 0 <= i && i + 1 < names.len() ==> #[trigger] discovered(d, alphabet, names, i)
}

/// Whether the table is the automaton `d`, restricted to the states that words
/// over the alphabet lead to, with the state `names[i]` numbered `i`.
pub open spec fn mirrors<X, D: Dfa<X>>(
    d: &D,
    alphabet: Seq<X>,
    table: Seq<(bool, Vec<(X, usize)>)>,
    names: Seq<<D::State as Finite>::Model>,
) -> bool {
    &&& names.len() == table.len()
    &&& 0 < names.len() <= usize::MAX
    &&& names[0] == d.start()
    &&& names.no_duplicates()
    &&& forall|s: <D::State as Finite>::Model| names.contains(s) <==> reachable(d, alphabet, s)
    &&& forall|i: int| 0 <= i < names.len() ==> (#[trigger] table[i]).0 == d.accepting(names[i])
    &&& forall|i: int|
        0 <= i < names.len() ==> (#[trigger] table[i]).1@ == row_of(
            d,
            alphabet,
            numbers_of(names),
            names[i],
        )
}

/// A row depends on the numbers of the states that it leads to only.
pub proof fn lemma_row_of_agree<X, D: Dfa<X>>(
    d: &D,
    alphabet: Seq<X>,
    n1: Map<<D::State as Finite>::Model, usize>,
    n2: Map<<D::State as Finite>::Model, usize>,
    s: <D::State as Finite>::Model,
)
    requires
        leads_inside(d, alphabet, n1, s),
        forall|t: <D::State as Finite>::Model| #[trigger]
            n1.dom().contains(t) ==> n2.dom().contains(t) && n2[t] == n1[t],
    ensures
        leads_inside(d, alphabet, n2, s),
        row_of(d, alphabet, n2, s) == row_of(d, alphabet, n1, s),
    decreases alphabet.len(),
{
    if alphabet.len() > 0 {
        let before = alphabet.drop_last();
        assert forall|c: X| before.contains(c) implies alphabet.contains(c) by {
            let k = choose|k: int| 0 <= k < before.len() && before[k] == c;
            assert(alphabet[k] == c);
        }
        assert(alphabet.contains(alphabet.last())) by {
            assert(alphabet[alphabet.len() - 1] == alphabet.last());
        }
        lemma_row_of_agree(d, before, n1, n2, s);
    }
}

/// What a row says of a symbol: the number of the state that the symbol leads
/// to, if it is a symbol of the alphabet and leads somewhere.
pub proof fn lemma_row_of_target<X, D: Dfa<X>>(
    d: &D,
    alphabet: Seq<X>,
    numbers: Map<<D::State as Finite>::Model, usize>,
    s: <D::State as Finite>::Model,
    c: X,
)
    ensures
        row_target(row_of(d, alphabet, numbers, s), c) == if alphabet.contains(c) {
            match d.step(s, c) {
                Some(t) => Some(numbers[t]),
                None => None,
            }
        } else {
            None
        },
    decreases alphabet.len(),
{
    if alphabet.len() == 0 {
        if alphabet.contains(c) {
            let k = choose|k: int| 0 <= k < alphabet.len() && alphabet[k] == c;
        }
    } else {
        let before = alphabet.drop_last();
        let last = alphabet.last();
        lemma_row_of_target(d, before, numbers, s, c);
        assert(alphabet.contains(c) <==> before.contains(c) || c == last) by {
            if alphabet.contains(c) {
                let k = choose|k: int| 0 <= k < alphabet.len() && alphabet[k] == c;
                if k < before.len() {
                    assert(before[k] == c);
                }
            }
            if before.contains(c) {
                let k = choose|k: int| 0 <= k < before.len() && before[k] == c;
                assert(alphabet[k] == c);
            }
            assert(alphabet[alphabet.len() - 1] == last);
        }
        match d.step(s, last) {
            Some(t) => {
                lemma_row_push(row_of(d, before, numbers, s), (last, numbers[t]), c);
            },
            None => {},
        }
    }
}

/// The table has the transitions of `d`, by number, on the symbols of the
/// alphabet, and no others.
pub proof fn lemma_mirror_step<X, D: Dfa<X>>(
    d: &D,
    alphabet: Seq<X>,
    table: Seq<(bool, Vec<(X, usize)>)>,
    names: Seq<<D::State as Finite>::Model>,
    i: usize,
    c: X,
)
    requires
        mirrors(d, alphabet, table, names),
        i < names.len(),
    ensures
        table_step(table, i, c) == if alphabet.contains(c) {
            match d.step(names[i as int], c) {
                Some(t) => Some(names.index_of(t) as usize),
                None => None,
            }
        } else {
            None
        },
        alphabet.contains(c) && d.step(names[i as int], c) is Some ==> names.contains(
            d.step(names[i as int], c).unwrap(),
        ),
{
    lemma_row_of_target(d, alphabet, numbers_of(names), names[i as int], c);
    assert(table[i as int].1@ == row_of(d, alphabet, numbers_of(names), names[i as int]));
    if alphabet.contains(c) && d.step(names[i as int], c) is Some {
        assert(names.contains(names[i as int]));
        lemma_successor_reachable(d, alphabet, names[i as int], c);
    }
}

/// Baking preserves every run: reading a word over the alphabet from the state
/// numbered `i` in the table leads to the number of the state that the word
/// leads to from `names[i]` in `d`, and is rejected where `d` rejects it.
pub proof fn lemma_mirror_run<X: Copy + PartialEq, D: Dfa<X>>(
    d: &D,
    alphabet: Seq<X>,
    baked: &BakedDfa<X>,
    names: Seq<<D::State as Finite>::Model>,
    i: usize,
    w: Seq<X>,
)
    requires
        mirrors(d, alphabet, baked@, names),
        over(w, alphabet),
        i < names.len(),
    ensures
        match run_from(d, names[i as int], w) {
            Some(t) => names.contains(t) && run_from(baked, i, w) == Some(
                names.index_of(t) as usize,
            ),
            None => run_from(baked, i, w) is None,
        },
    decreases w.len(),
{
    if w.len() == 0 {
        assert(names.contains(names[i as int]));
        assert(names.index_of(names[i as int]) == i);
    } else {
        let u = w.drop_last();
        assert(over(u, alphabet)) by {
            assert forall|k: int| 0 <= k < u.len() implies alphabet.contains(#[trigger] u[k]) by {
                assert(u[k] == w[k]);
            }
        }
        lemma_mirror_run(d, alphabet, baked, names, i, u);
        assert(alphabet.contains(w[w.len() - 1]));
        match run_from(d, names[i as int], u) {
            Some(t) => {
                let j = names.index_of(t);
                assert(0 <= j < names.len() && names[j] == t);
                lemma_mirror_step(d, alphabet, baked@, names, j as usize, w.last());
            },
            None => {},
        }
    }
}

/// The table accepts a word over the alphabet exactly if `d` does.
pub proof fn lemma_mirror_language<X: Copy + PartialEq, D: Dfa<X>>(
    d: &D,
    alphabet: Seq<X>,
    baked: &BakedDfa<X>,
    names: Seq<<D::State as Finite>::Model>,
    w: Seq<X>,
)
    requires
        mirrors(d, alphabet, baked@, names),
        over(w, alphabet),
    ensures
        accepts(baked, w) == accepts(d, w),
{
    lemma_mirror_run(d, alphabet, baked, names, 0, w);
    match run(d, w) {
        Some(t) => {
            let j = names.index_of(t);
            assert(0 <= j < names.len() && names[j] == t);
            assert(baked@[j].0 == d.accepting(names[j]));
        },
        None => {},
    }
}

/// How a traversal went on is not changed by what it met later.
proof fn lemma_discovered_extends<X, D: Dfa<X>>(
    d: &D,
    alphabet: Seq<X>,
    names: Seq<<D::State as Finite>::Model>,
    longer: Seq<<D::State as Finite>::Model>,
    i: int,
)
    requires
        0 <= i,
        i + 1 < names.len(),
        names.len() <= longer.len(),
        forall|x: int| 0 <= x < names.len() ==> longer[x] == names[x],
        discovered(d, alphabet, names, i),
    ensures
        discovered(d, alphabet, longer, i),
{
    assert(longer.take(i + 1) =~= names.take(i + 1));
    let seen = names.take(i + 1).to_set();
    let k = choose|k: int|
        0 <= k <= i && #[trigger] first_new(d, alphabet, seen, names[k], names[i + 1]) && forall|
            m: int,
        |
            k < m <= i ==> !has_new(d, alphabet, seen, #[trigger] names[m]);
    assert(first_new(d, alphabet, seen, longer[k], longer[i + 1]));
    assert forall|m: int| k < m <= i implies !has_new(d, alphabet, seen, #[trigger] longer[m]) by {
        assert(longer[m] == names[m]);
        assert(!has_new(d, alphabet, seen, names[m]));
    }
}

/// The first new state is one state.
proof fn lemma_first_new_unique<X, D: Dfa<X>>(
    d: &D,
    alphabet: Seq<X>,
    seen: Set<<D::State as Finite>::Model>,
    s: <D::State as Finite>::Model,
    t1: <D::State as Finite>::Model,
    t2: <D::State as Finite>::Model,
)
    requires
        first_new(d, alphabet, seen, s, t1),
        first_new(d, alphabet, seen, s, t2),
    ensures
        t1 == t2,
        has_new(d, alphabet, seen, s),
{
    let j1 = choose|j: int|
        0 <= j < alphabet.len() && #[trigger] d.step(s, alphabet[j]) == Some(t1) && !seen.contains(
            t1,
        ) && forall|k: int|
            0 <= k < j && (#[trigger] d.step(s, alphabet[k])) is Some ==> seen.contains(
                d.step(s, alphabet[k]).unwrap(),
            );
    let j2 = choose|j: int|
        0 <= j < alphabet.len() && #[trigger] d.step(s, alphabet[j]) == Some(t2) && !seen.contains(
            t2,
        ) && forall|k: int|
            0 <= k < j && (#[trigger] d.step(s, alphabet[k])) is Some ==> seen.contains(
                d.step(s, alphabet[k]).unwrap(),
            );
    if j1 < j2 {
        assert(d.step(s, alphabet[j1]) is Some);
    } else if j2 < j1 {
        assert(d.step(s, alphabet[j2]) is Some);
    }
    assert(alphabet.contains(alphabet[j1]));
    assert(d.step(s, alphabet[j1]) is Some);
}

/// The order of a depth-first traversal is determined by where it begins: two
/// listings that begin with the same state, and go on as a depth-first
/// traversal does, agree as far as both go.
pub proof fn lemma_depth_first_unique<X, D: Dfa<X>>(
    d: &D,
    alphabet: Seq<X>,
    a: Seq<<D::State as Finite>::Model>,
    b: Seq<<D::State as Finite>::Model>,
    i: int,
)
    requires
        0 <= i < a.len(),
        i < b.len(),
        a[0] == b[0],
        depth_first(d, alphabet, a),
        depth_first(d, alphabet, b),
    ensures
        a.take(i + 1) == b.take(i + 1),
    decreases i,
{
    if i == 0 {
        assert(a.take(1) =~= b.take(1));
    } else {
        lemma_depth_first_unique(d, alphabet, a, b, i - 1);
        let last = i - 1;
        assert(a.take(last + 1) == b.take(last + 1));
        let seen = a.take(last + 1).to_set();
        assert(discovered(d, alphabet, a, last));
        assert(discovered(d, alphabet, b, last));
        let ka = choose|k: int|
            0 <= k <= last && #[trigger] first_new(d, alphabet, seen, a[k], a[last + 1]) && forall|
                m: int,
            |
                k < m <= last ==> !has_new(d, alphabet, seen, #[trigger] a[m]);
        let kb = choose|k: int|
            0 <= k <= last && #[trigger] first_new(d, alphabet, seen, b[k], b[last + 1]) && forall|
                m: int,
            |
                k < m <= last ==> !has_new(d, alphabet, seen, #[trigger] b[m]);
        assert forall|k: int| 0 <= k <= last implies a[k] == b[k] by {
            assert(a.take(last + 1)[k] == b.take(last + 1)[k]);
        }
        lemma_first_new_unique(d, alphabet, seen, a[ka], a[last + 1], a[last + 1]);
        lemma_first_new_unique(d, alphabet, seen, b[kb], b[last + 1], b[last + 1]);
        if ka < kb {
            assert(!has_new(d, alphabet, seen, a[kb]));
        } else if kb < ka {
            assert(!has_new(d, alphabet, seen, b[ka]));
        }
        lemma_first_new_unique(d, alphabet, seen, a[ka], a[last + 1], b[last + 1]);
        assert(a.take(i + 1) =~= a.take(i).push(a[i]));
        assert(b.take(i + 1) =~= b.take(i).push(b[i]));
    }
}

/// The states that `names` lists are those that `numbers` numbers.
proof fn lemma_numbered_set<X, D: Dfa<X>>(
    d: &D,
    alphabet: Seq<X>,
    table: Seq<(bool, Vec<(X, usize)>)>,
    numbers: Map<<D::State as Finite>::Model, usize>,
    names: Seq<<D::State as Finite>::Model>,
)
    requires
        numbered(d, alphabet, table, numbers, names),
    ensures
        names.to_set() == numbers.dom(),
        names.take(names.len() as int) == names,
{
    assert forall|s: <D::State as Finite>::Model| names.to_set().contains(s) implies numbers.dom().contains(
        s,
    ) by {
        let k = choose|k: int| 0 <= k < names.len() && names[k] == s;
        assert(numbers.dom().contains(names[k]));
    }
    assert forall|s: <D::State as Finite>::Model| numbers.dom().contains(
        s,
    ) implies names.to_set().contains(s) by {
        assert(names[numbers[s] as int] == s);
        assert(names.contains(s));
    }
    assert(names.to_set() =~= numbers.dom());
    assert(names.take(names.len() as int) =~= names);
}

/// Numbers `state` and, depth first, every state that it leads to and that has
/// no number yet; returns the number of `state`.
fn visit<X: Copy + PartialEq, D: Dfa<X>>(
    dfa: &D,
    alphabet: &[X],
    states: &mut Vec<(bool, Vec<(X, usize)>)>,
    reverse: &mut OrdMap<D::State, usize>,
    state: &D::State,
    names0: Ghost<Seq<<D::State as Finite>::Model>>,
) -> (r: (usize, Ghost<Seq<<D::State as Finite>::Model>>))
    requires
        dfa.dfa_wf(),
        obeys_concrete_eq::<X>(),
        state.wf(),
        old(reverse).wf(),
        old(reverse).dom().subset_of(<D::State as Finite>::domain()),
        !old(reverse).dom().contains(state.model()),
        reachable(dfa, alphabet@, state.model()),
        numbered(dfa, alphabet@, old(states)@, old(reverse).as_map(), names0@),
    ensures
        r.0 == old(states)@.len(),
        final(reverse).wf(),
        final(reverse).dom().subset_of(<D::State as Finite>::domain()),
        numbered(dfa, alphabet@, final(states)@, final(reverse).as_map(), r.1@),
        final(states)@.len() > old(states)@.len(),
        r.1@[r.0 as int] == state.model(),
        forall|i: int| 0 <= i < old(states)@.len() ==> final(states)@[i] == old(states)@[i],
        forall|i: int| 0 <= i < old(states)@.len() ==> r.1@[i] == names0@[i],
        forall|s: <D::State as Finite>::Model| #[trigger]
            old(reverse).as_map().dom().contains(s) ==> final(reverse).as_map().dom().contains(s)
                && final(reverse).as_map()[s] == old(reverse).as_map()[s],
        forall|i: int|
            old(states)@.len() <= i < final(states)@.len() ==> row_complete(
                dfa,
                alphabet@,
                final(states)@,
                final(reverse).as_map(),
                r.1@,
                i,
            ),
        forall|i: int|
            old(states)@.len() <= i && i + 1 < final(states)@.len() ==> #[trigger] discovered(
                dfa,
                alphabet@,
                r.1@,
                i,
            ),
    decreases <D::State as Finite>::domain().len() - old(reverse).dom().len(),
{
    let ghost sm = state.model();
    let ghost states0 = states@;
    let ghost reverse0 = *reverse;
    let ghost dom_len = <D::State as Finite>::domain().len();
    let id = states.len();
    let accepting = dfa.accept(state);
    reverse.insert(state.duplicate(), id);
    states.push((accepting, Vec::new()));
    let ghost mut names = names0@.push(sm);
    let mut row: Vec<(X, usize)> = Vec::new();
    let n = alphabet.len();
    let mut j: usize = 0;
    proof {
        <D::State as Finite>::lemma_domain_finite();
        state.lemma_in_domain();
        vstd::seq_lib::seq_to_set_is_finite(reverse0.keys@);
        vstd::set_lib::lemma_len_subset(reverse.dom(), <D::State as Finite>::domain());
        assert(alphabet@.take(0) =~= Seq::<X>::empty());
        assert(numbered(dfa, alphabet@, states@, reverse.as_map(), names));
    }
    while j < n
        invariant
            dfa.dfa_wf(),
            obeys_concrete_eq::<X>(),
            state.wf(),
            sm == state.model(),
            n == alphabet@.len(),
            j <= n,
            id == states0.len(),
            reverse0 == *old(reverse),
            dom_len == <D::State as Finite>::domain().len(),
            <D::State as Finite>::domain().finite(),
            reverse.wf(),
            reverse.dom().subset_of(<D::State as Finite>::domain()),
            reverse.dom().len() > reverse0.dom().len(),
            reverse.dom().len() <= dom_len,
            numbered(dfa, alphabet@, states@, reverse.as_map(), names),
            states@.len() > states0.len(),
            names[id as int] == sm,
            forall|i: int| 0 <= i < states0.len() ==> states@[i] == states0[i],
            forall|i: int| 0 <= i < states0.len() ==> names[i] == names0@[i],
            forall|s: <D::State as Finite>::Model| #[trigger]
                reverse0.as_map().dom().contains(s) ==> reverse.as_map().dom().contains(s)
                    && reverse.as_map()[s] == reverse0.as_map()[s],
            forall|i: int|
                id < i < states@.len() ==> row_complete(
                    dfa,
                    alphabet@,
                    states@,
                    reverse.as_map(),
                    names,
                    i,
                ),
            forall|i: int|
                id <= i && i + 1 < states@.len() ==> #[trigger] discovered(
                    dfa,
                    alphabet@,
                    names,
                    i,
                ),
            leads_inside(dfa, alphabet@.take(j as int), reverse.as_map(), sm),
            row@ == row_of(dfa, alphabet@.take(j as int), reverse.as_map(), sm),
        decreases n - j,
    {
        let c = alphabet[j];
        let ghost seen = alphabet@.take(j as int);
        let ghost more = alphabet@.take(j + 1);
        let ghost row0 = row@;
        let ghost reverse1 = *reverse;
        let ghost states1 = states@;
        let ghost names1 = names;
        proof {
            assert(more.drop_last() =~= seen);
            assert(more.last() == c);
            assert(alphabet@.contains(c)) by {
                assert(alphabet@[j as int] == c);
            }
            assert forall|x: X| more.contains(x) implies seen.contains(x) || x == c by {
                let k = choose|k: int| 0 <= k < more.len() && more[k] == x;
                if k < j {
                    assert(seen[k] == x);
                }
            }
        }
        match dfa.next(state.duplicate(), c) {
            Some(next) => {
                let ghost tm = next.model();
                let known = match reverse.get(&next) {
                    Some(t) => Some(*t),
                    None => None,
                };
                let target = match known {
                    Some(t) => t,
                    None => {
                        proof {
                            lemma_successor_reachable(dfa, alphabet@, sm, c);
                        }
                        let (t, Ghost(longer)) = visit(
                            dfa,
                            alphabet,
                            states,
                            reverse,
                            &next,
                            Ghost(names),
                        );
                        proof {
                            names = longer;
                            vstd::seq_lib::seq_to_set_is_finite(reverse.keys@);
                            vstd::seq_lib::seq_to_set_is_finite(reverse1.keys@);
                            assert(reverse1.dom().subset_of(reverse.dom())) by {
                                assert forall|s: <D::State as Finite>::Model|
                                    reverse1.dom().contains(s) implies reverse.dom().contains(
                                    s,
                                ) by {
                                    assert(reverse1.as_map().dom().contains(s));
                                    assert(reverse.as_map().dom().contains(s));
                                }
                            }
                            vstd::set_lib::lemma_len_subset(reverse1.dom(), reverse.dom());
                            vstd::set_lib::lemma_len_subset(
                                reverse.dom(),
                                <D::State as Finite>::domain(),
                            );
                            // the rows that were complete are complete
                            assert forall|i: int| id < i < states@.len() implies row_complete(
                                dfa,
                                alphabet@,
                                states@,
                                reverse.as_map(),
                                names,
                                i,
                            ) by {
                                if i < states1.len() {
                                    assert(row_complete(
                                        dfa,
                                        alphabet@,
                                        states1,
                                        reverse1.as_map(),
                                        names1,
                                        i,
                                    ));
                                    lemma_row_of_agree(
                                        dfa,
                                        alphabet@,
                                        reverse1.as_map(),
                                        reverse.as_map(),
                                        names1[i],
                                    );
                                }
                            }
                            // the row under way is as it was
                            lemma_row_of_agree(dfa, seen, reverse1.as_map(), reverse.as_map(), sm);
                            // the traversal went from `state` to the state that is new
                            let before = names1.len() as int;
                            lemma_numbered_set(
                                dfa,
                                alphabet@,
                                states1,
                                reverse1.as_map(),
                                names1,
                            );
                            assert(names.take(before) =~= names1);
                            let met = names.take(before).to_set();
                            assert(met == reverse1.as_map().dom());
                            assert(!met.contains(tm));
                            assert(first_new(dfa, alphabet@, met, names[id as int], names[before]))
                                by {
                                assert(dfa.step(sm, alphabet@[j as int]) == Some(tm));
                                assert forall|k: int|
                                    0 <= k < j && (#[trigger] dfa.step(
                                        sm,
                                        alphabet@[k],
                                    )) is Some implies met.contains(
                                    dfa.step(sm, alphabet@[k]).unwrap(),
                                ) by {
                                    assert(seen[k] == alphabet@[k]);
                                    assert(seen.contains(alphabet@[k]));
                                }
                            }
                            assert forall|m: int| id < m <= before - 1 implies !has_new(
                                dfa,
                                alphabet@,
                                met,
                                #[trigger] names[m],
                            ) by {
                                assert(names[m] == names1[m]);
                                assert(row_complete(
                                    dfa,
                                    alphabet@,
                                    states1,
                                    reverse1.as_map(),
                                    names1,
                                    m,
                                ));
                            }
                            let last = before - 1;
                            assert(names.take(last + 1) =~= names.take(before));
                            assert(first_new(
                                dfa,
                                alphabet@,
                                names.take(last + 1).to_set(),
                                names[id as int],
                                names[last + 1],
                            ));
                            assert forall|m: int| id < m <= last implies !has_new(
                                dfa,
                                alphabet@,
                                names.take(last + 1).to_set(),
                                #[trigger] names[m],
                            ) by {
                                assert(!has_new(dfa, alphabet@, met, names[m]));
                            }
                            assert(discovered(dfa, alphabet@, names, last));
                            assert forall|i: int|
                                id <= i && i + 1 < states@.len() implies #[trigger] discovered(
                                dfa,
                                alphabet@,
                                names,
                                i,
                            ) by {
                                if i + 1 < before {
                                    lemma_discovered_extends(dfa, alphabet@, names1, names, i);
                                }
                            }
                        }
                        t
                    },
                };
                row.push((c, target));
                proof {
                    assert(reverse.as_map().dom().contains(tm));
                    assert(reverse.as_map()[tm] == target);
                    assert(leads_inside(dfa, more, reverse.as_map(), sm));
                    assert(row@ == row_of(dfa, more, reverse.as_map(), sm));
                }
            },
            None => {
                proof {
                    assert(leads_inside(dfa, more, reverse.as_map(), sm));
                    assert(row@ == row_of(dfa, more, reverse.as_map(), sm));
                }
            },
        }
        j += 1;
    }
    let ghost states2 = states@;
    states.set(id, (accepting, row));
    proof {
        assert(alphabet@.take(n as int) =~= alphabet@);
        assert(numbered(dfa, alphabet@, states@, reverse.as_map(), names)) by {
            assert forall|i: int| 0 <= i < names.len() implies (#[trigger] states@[i]).0
                == dfa.accepting(names[i]) by {
                if i != id {
                    assert(states@[i] == states2[i]);
                }
            }
        }
        assert forall|i: int| id <= i < states@.len() implies row_complete(
            dfa,
            alphabet@,
            states@,
            reverse.as_map(),
            names,
            i,
        ) by {
            if i != id {
                assert(states@[i] == states2[i]);
                assert(row_complete(dfa, alphabet@, states2, reverse.as_map(), names, i));
            }
        }
    }
    (id, Ghost(names))
}

/// Bakes the part of `dfa` that words over `alphabet` lead to into a table.
///
/// The states are numbered in the order in which a depth-first traversal from
/// the initial state meets them, trying the symbols in the order of the
/// alphabet. The row of each state has an entry for each symbol of the
/// alphabet that leads somewhere, in the order of the alphabet. On words over
/// the alphabet the table accepts what `dfa` accepts.
pub fn bake_dfa<X: Copy + PartialEq, D: Dfa<X>>(dfa: D, alphabet: &[X]) -> (baked: BakedDfa<X>)
    requires
        dfa.dfa_wf(),
        obeys_concrete_eq::<X>(),
    ensures
        exists|names: Seq<<D::State as Finite>::Model>|
            #[trigger] mirrors(&dfa, alphabet@, baked@, names) && depth_first(
                &dfa,
                alphabet@,
                names,
            ),
        forall|w: Seq<X>| over(w, alphabet@) ==> accepts(&baked, w) == accepts(&dfa, w),
{
    let mut states: Vec<(bool, Vec<(X, usize)>)> = Vec::new();
    let mut reverse: OrdMap<D::State, usize> = OrdMap::new();
    let first = dfa.initial();
    proof {
        lemma_start_reachable(&dfa, alphabet@);
    }
    let (id, Ghost(names)) = visit(
        &dfa,
        alphabet,
        &mut states,
        &mut reverse,
        &first,
        Ghost(Seq::empty()),
    );
    let count = states.len();
    let baked = BakedDfa(states);
    proof {
        let numbers = reverse.as_map();
        assert(names.len() == count);
        assert(names.no_duplicates());
        assert forall|i: int| 0 <= i < names.len() implies names.index_of(#[trigger] names[i])
            == i by {
            assert(names.contains(names[i]));
        }
        lemma_numbered_set(&dfa, alphabet@, baked@, numbers, names);
        assert(numbers_of(names) =~= numbers) by {
            assert forall|s: <D::State as Finite>::Model| numbers.dom().contains(
                s,
            ) implies #[trigger] numbers_of(names)[s] == numbers[s] by {
                assert(names[numbers[s] as int] == s);
            }
        }
        let set = names.to_set();
        assert(closed(&dfa, alphabet@, set)) by {
            assert forall|s: <D::State as Finite>::Model, c: X|
                set.contains(s) && alphabet@.contains(c) && (#[trigger] dfa.step(
                    s,
                    c,
                )) is Some implies set.contains(dfa.step(s, c).unwrap()) by {
                let i = choose|i: int| 0 <= i < names.len() && names[i] == s;
                assert(row_complete(&dfa, alphabet@, baked@, numbers, names, i));
            }
        }
        assert(names.contains(names[0]));
        assert forall|s: <D::State as Finite>::Model| reachable(
            &dfa,
            alphabet@,
            s,
        ) implies names.contains(s) by {
            let w = choose|w: Seq<X>| over(w, alphabet@) && run(&dfa, w) == Some(s);
            lemma_closed_holds_run(&dfa, alphabet@, set, w);
        }
        assert forall|s: <D::State as Finite>::Model| names.contains(s) implies reachable(
            &dfa,
            alphabet@,
            s,
        ) by {
            let i = choose|i: int| 0 <= i < names.len() && names[i] == s;
            assert(reachable(&dfa, alphabet@, names[i]));
        }
        assert forall|i: int| 0 <= i < names.len() implies (#[trigger] baked@[i]).1@ == row_of(
            &dfa,
            alphabet@,
            numbers_of(names),
            names[i],
        ) by {
            assert(row_complete(&dfa, alphabet@, baked@, numbers, names, i));
        }
        assert(names[0] == dfa.start());
        assert(mirrors(&dfa, alphabet@, baked@, names));
        assert(depth_first(&dfa, alphabet@, names));
        assert forall|w: Seq<X>| over(w, alphabet@) implies accepts(&baked, w) == accepts(
            &dfa,
            w,
        ) by {
            lemma_mirror_language(&dfa, alphabet@, &baked, names, w);
        }
    }
    baked
}

} // verus!
