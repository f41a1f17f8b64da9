//! From an automaton back to a pattern, by state elimination.
//!
//! The automaton is laid out as a graph whose edges carry patterns: a source
//! that leads to the start state, the states that words over the alphabet lead
//! to, and a sink that every accepting state leads to. The states are then
//! taken out one by one, in ascending order; whenever a state goes, each path
//! through it is replaced by an edge that bypasses it. In the end the one edge
//! that is left, from the source to the sink, carries the pattern.
use vstd::prelude::*;
use vstd::string::StringExecFns;
use crate::dfa::{
    Dfa,
    accepts,
    over,
    reachable,
    closed,
    lemma_start_reachable,
    lemma_successor_reachable,
    lemma_closed_holds_run,
};
use crate::elimination::lemma_regex_of;
use crate::finite::{Finite, Order};
use crate::ordmap::OrdMap;
use crate::pattern::{Pattern, written, matched};
use crate::sorted::canon;

verus! {

/// The labels of the edges that leave one node, by the node they lead to.
/// `None` stands for the sink.
pub type Labels<M> = Map<Option<M>, Seq<char>>;

/// The labelled edges of a graph, by the node they leave. `None` stands for the source.
pub type Graph<M> = Map<Option<M>, Map<Option<M>, Seq<char>>>;

/// The edges that leave one node, with their labels, as they are laid out in memory.
pub type Row<S> = OrdMap<Option<S>, String>;

/// The graph, as it is laid out in memory.
pub type Rows<S> = OrdMap<Option<S>, OrdMap<Option<S>, String>>;

/// The lowercase hexadecimal digit for `n`.
pub open spec fn hex_digit(n: u8) -> char {
    if n < 10 {
        (48 + n) as char
    } else {
        (87 + n) as char
    }
}

/// How a symbol is written in a pattern: a printable ASCII byte as itself,
/// any other byte as a backslash followed by two lowercase hexadecimal digits.
pub open spec fn symbol_text(c: u8) -> Seq<char> {
    if 0x20 <= c && c <= 0x7e {
        seq![c as char]
    } else {
        seq!['\\', hex_digit(c / 16), hex_digit(c % 16)]
    }
}

/// The alternatives `a` and `b`.
pub open spec fn either(a: Seq<char>, b: Seq<char>) -> Seq<char> {
    a + seq!['|'] + b
}

/// The pattern of a path that enters a state by `into`, goes round the state's
/// loop any number of times, and leaves it by `out`.
pub open spec fn bypass(into: Seq<char>, around: Option<Seq<char>>, out: Seq<char>) -> Seq<char> {
    seq!['('] + into + seq![')'] + (match around {
        Some(l) => seq!['('] + l + seq![')', '*'],
        None => Seq::empty(),
    }) + seq!['('] + out + seq![')']
}

/// The label of the edge from `s` to `t`: the symbols of `alphabet` that lead
/// from `s` to `t`, in the order of the alphabet, as alternatives. `None` if
/// there is no such symbol.
pub open spec fn edge_text<D: Dfa<u8>>(
    d: &D,
    alphabet: Seq<u8>,
    s: <D::State as Finite>::Model,
    t: <D::State as Finite>::Model,
) -> Option<Seq<char>>
    decreases alphabet.len(),
{
    if alphabet.len() == 0 {
        None
    } else {
        let before = edge_text(d, alphabet.drop_last(), s, t);
        if d.step(s, alphabet.last()) == Some(t) {
            match before {
                Some(text) => Some(either(text, symbol_text(alphabet.last()))),
                None => Some(symbol_text(alphabet.last())),
            }
        } else {
            before
        }
    }
}

/// The edges that leave the state `s`: one to each state that a symbol leads
/// to, and one with an empty label to the sink if `s` is accepting.
pub open spec fn out_edges<D: Dfa<u8>>(
    d: &D,
    alphabet: Seq<u8>,
    s: <D::State as Finite>::Model,
) -> Labels<<D::State as Finite>::Model> {
    Map::new(
        |t: Option<<D::State as Finite>::Model>|
            match t {
                Some(t) => edge_text(d, alphabet, s, t) is Some,
                None => d.accepting(s),
            },
        |t: Option<<D::State as Finite>::Model>|
            match t {
                Some(t) => edge_text(d, alphabet, s, t).unwrap(),
                None => Seq::empty(),
            },
    )
}

/// The graph before any state is taken out.
pub open spec fn initial_graph<D: Dfa<u8>>(d: &D, alphabet: Seq<u8>) -> Graph<
    <D::State as Finite>::Model,
> {
    Map::new(
        |u: Option<<D::State as Finite>::Model>|
            match u {
                Some(s) => reachable(d, alphabet, s),
                None => true,
            },
        |u: Option<<D::State as Finite>::Model>|
            match u {
                Some(s) => out_edges(d, alphabet, s),
                None => source_edges(d),
            },
    )
}

/// The edges that leave a node once the node `s` is gone, where `row` holds
/// the edges that left the node before, `gone` those that left `s` for other
/// nodes, and `around` the label of the loop at `s`, if there was one.
pub open spec fn join_row<M>(
    row: Labels<M>,
    gone: Labels<M>,
    s: Option<M>,
    around: Option<Seq<char>>,
) -> Labels<M> {
    Map::new(
        |v: Option<M>|
            v != s && (row.dom().contains(v) || (row.dom().contains(s) && gone.dom().contains(v))),
        |v: Option<M>|
            if row.dom().contains(s) && gone.dom().contains(v) {
                let through = bypass(row[s], around, gone[v]);
                if row.dom().contains(v) {
                    either(row[v], through)
                } else {
                    through
                }
            } else {
                row[v]
            },
    )
}

/// The edges that leave a node once the node `s` is gone, where `row` holds
/// the edges that left the node before and `gone` those that left `s`: each
/// path through `s` becomes an edge, beside the edge that was there, if any.
pub open spec fn eliminate_row<M>(row: Labels<M>, gone: Labels<M>, s: Option<M>) -> Labels<M> {
    join_row(
        row,
        gone,
        s,
        if gone.dom().contains(s) {
            Some(gone[s])
        } else {
            None
        },
    )
}

/// The graph without the node `s`.
pub open spec fn eliminate<M>(g: Graph<M>, s: Option<M>) -> Graph<M> {
    Map::new(
        |u: Option<M>| g.dom().contains(u) && u != s,
        |u: Option<M>| eliminate_row(g[u], g[s], s),
    )
}

/// The graph without the states that `order` lists, taken out in that order.
pub open spec fn eliminate_all<M>(g: Graph<M>, order: Seq<Option<M>>) -> Graph<M>
    decreases order.len(),
{
    if order.len() == 0 {
        g
    } else if order[0] is Some {
        eliminate_all(eliminate(g, order[0]), order.drop_first())
    } else {
        eliminate_all(g, order.drop_first())
    }
}

/// The graph that is left when all states are gone.
pub open spec fn eliminated<D: Dfa<u8>>(d: &D, alphabet: Seq<u8>) -> Graph<
    <D::State as Finite>::Model,
> {
    eliminate_all(
        initial_graph(d, alphabet),
        canon::<Option<D::State>>(initial_graph(d, alphabet).dom()),
    )
}

/// The pattern for the words over `alphabet` that `d` accepts: the label from
/// the source to the sink after all states have been taken out in ascending
/// order. `None` if no such edge is left.
pub open spec fn regex_of<D: Dfa<u8>>(d: &D, alphabet: Seq<u8>) -> Option<Seq<char>> {
    let g = eliminated(d, alphabet);
    if g.dom().contains(None) && g[None].dom().contains(None) {
        Some(g[None][None])
    } else {
        None
    }
}

/// The labels that a row holds, as texts.
pub open spec fn row_text<S: Finite>(row: Row<S>) -> Labels<S::Model> {
    Map::new(
        |k: Option<S::Model>| row.dom().contains(k),
        |k: Option<S::Model>| row.as_map()[k]@,
    )
}

/// The rows are a well-formed map of well-formed maps.
pub open spec fn rows_wf<S: Finite>(rows: Rows<S>) -> bool {
    &&& rows.wf()
    &&& forall|k: Option<S::Model>| rows.dom().contains(k) ==> (#[trigger] rows.as_map()[k]).wf()
}

/// Whether `stack` holds a state whose model is `m`.
pub open spec fn holds<S: Finite>(stack: Seq<S>, m: S::Model) -> bool {
    exists|i: int| 0 <= i < stack.len() && (#[trigger] stack[i]).model() == m
}

/// Whether a symbol of `alphabet` leads from `s` to `t`.
pub open spec fn successor_of<D: Dfa<u8>>(
    d: &D,
    alphabet: Seq<u8>,
    s: <D::State as Finite>::Model,
    t: <D::State as Finite>::Model,
) -> bool {
    exists|c: u8| alphabet.contains(c) && #[trigger] d.step(s, c) == Some(t)
}

/// The one edge that leaves the source: to the start state, with an empty label.
pub open spec fn source_edges<D: Dfa<u8>>(d: &D) -> Labels<<D::State as Finite>::Model> {
    Map::empty().insert(Some(d.start()), Seq::empty())
}

/// The graph that the rows hold.
pub open spec fn rows_graph<S: Finite>(rows: Rows<S>) -> Graph<S::Model> {
    Map::new(
        |k: Option<S::Model>| rows.dom().contains(k),
        |k: Option<S::Model>| row_text(rows.as_map()[k]),
    )
}

/// Appends one character (`String::push` of the standard library): the text
/// afterwards is the text before, followed by `c`.
#[verifier::external_body]
fn push_char(s: &mut String, c: char)
    ensures
        final(s)@ == old(s)@.push(c),
{
    s.push(c);
}

fn hex_digit_char(n: u8) -> (c: char)
    requires
        n < 16,
    ensures
        c == hex_digit(n),
{
    if n < 10 {
        (48 + n) as char
    } else {
        (87 + n) as char
    }
}

/// Writes a symbol as it stands in a pattern.
pub fn symbol_string(c: u8) -> (s: String)
    ensures
        s@ == symbol_text(c),
{
    let mut s = String::new();
    if 0x20 <= c && c <= 0x7e {
        push_char(&mut s, c as char);
        proof {
            assert(s@ =~= seq![c as char]);
        }
    } else {
        push_char(&mut s, '\\');
        push_char(&mut s, hex_digit_char(c / 16));
        push_char(&mut s, hex_digit_char(c % 16));
        proof {
            assert(s@ =~= seq!['\\', hex_digit(c / 16), hex_digit(c % 16)]);
        }
    }
    s
}

/// Writes two patterns as alternatives.
pub fn either_string(a: &String, b: &String) -> (s: String)
    ensures
        s@ == either(a@, b@),
{
    let mut s = a.clone();
    push_char(&mut s, '|');
    s.append(b.as_str());
    proof {
        assert(s@ =~= either(a@, b@));
    }
    s
}

/// Writes the pattern of the paths through a state that is taken out.
pub fn bypass_string(into: &String, around: Option<&String>, out: &String) -> (s: String)
    ensures
        s@ == bypass(
            into@,
            match around {
                Some(l) => Some(l@),
                None => None,
            },
            out@,
        ),
{
    let mut s = String::new();
    push_char(&mut s, '(');
    s.append(into.as_str());
    push_char(&mut s, ')');
    match around {
        Some(l) => {
            push_char(&mut s, '(');
            s.append(l.as_str());
            push_char(&mut s, ')');
            push_char(&mut s, '*');
        },
        None => {},
    }
    push_char(&mut s, '(');
    s.append(out.as_str());
    push_char(&mut s, ')');
    proof {
        let a = match around {
            Some(l) => Some(l@),
            None => None,
        };
        assert(s@ =~= bypass(into@, a, out@));
    }
    s
}

/// Lays out the edges that leave `state`, and puts the states that they lead
/// to on `stack`.
fn build_row<D: Dfa<u8>>(
    dfa: &D,
    alphabet: &[u8],
    state: &D::State,
    stack: &mut Vec<D::State>,
) -> (row: Row<D::State>)
    requires
        dfa.dfa_wf(),
        state.wf(),
    ensures
        row.wf(),
        row_text(row) == out_edges(dfa, alphabet@, state.model()),
        final(stack)@.len() >= old(stack)@.len(),
        forall|i: int| 0 <= i < old(stack)@.len() ==> final(stack)@[i] == old(stack)@[i],
        forall|i: int|
            old(stack)@.len() <= i < final(stack)@.len() ==> (#[trigger] final(stack)@[i]).wf()
                && successor_of(dfa, alphabet@, state.model(), final(stack)@[i].model()),
        forall|t: <D::State as Finite>::Model| #[trigger]
            successor_of(dfa, alphabet@, state.model(), t) ==> holds(final(stack)@, t),
{
    let ghost s = state.model();
    let ghost base = stack@;
    let mut row: Row<D::State> = OrdMap::new();
    if dfa.accept(state) {
        row.insert(None, String::new());
    }
    let n = alphabet.len();
    let mut j: usize = 0;
    proof {
        assert(alphabet@.take(0) =~= Seq::<u8>::empty());
        assert(row_text(row) =~= out_edges(dfa, alphabet@.take(0), s));
    }
    while j < n
        invariant
            dfa.dfa_wf(),
            state.wf(),
            s == state.model(),
            n == alphabet@.len(),
            j <= n,
            row.wf(),
            row_text(row) == out_edges(dfa, alphabet@.take(j as int), s),
            stack@.len() >= base.len(),
            forall|i: int| 0 <= i < base.len() ==> stack@[i] == base[i],
            forall|i: int|
                base.len() <= i < stack@.len() ==> (#[trigger] stack@[i]).wf() && successor_of(
                    dfa,
                    alphabet@,
                    s,
                    stack@[i].model(),
                ),
            forall|t: <D::State as Finite>::Model| #[trigger]
                successor_of(dfa, alphabet@.take(j as int), s, t) ==> holds(stack@, t),
        decreases n - j,
    {
        let c = alphabet[j];
        let ghost seen = alphabet@.take(j as int);
        let ghost more = alphabet@.take(j + 1);
        let ghost row0 = row;
        let ghost stack0 = stack@;
        proof {
            assert(more.drop_last() =~= seen);
            assert(more.last() == c);
            assert(alphabet@.contains(c));
        }
        match dfa.next(state.duplicate(), c) {
            Some(t) => {
                let ghost tm = t.model();
                let text = symbol_string(c);
                let key = Some(t.duplicate());
                let label = match row.get(&key) {
                    Some(before) => either_string(before, &text),
                    None => text,
                };
                row.insert(key, label);
                stack.push(t);
                proof {
                    assert(successor_of(dfa, alphabet@, s, tm));
                    assert(stack@[stack0.len() as int].model() == tm);
                    assert forall|u: <D::State as Finite>::Model| #[trigger]
                        successor_of(dfa, more, s, u) implies holds(stack@, u) by {
                        let x = choose|x: u8| more.contains(x) && #[trigger] dfa.step(s, x) == Some(u);
                        let k = choose|k: int| 0 <= k < more.len() && more[k] == x;
                        if k < j {
                            assert(seen[k] == x);
                            assert(seen.contains(x));
                            assert(successor_of(dfa, seen, s, u));
                            let i = choose|i: int|
                                0 <= i < stack0.len() && (#[trigger] stack0[i]).model() == u;
                            assert(stack@[i] == stack0[i]);
                        } else {
                            assert(u == tm);
                        }
                    }
                    assert forall|k: Option<<D::State as Finite>::Model>|
                        row_text(row).dom().contains(k) <==> out_edges(dfa, more, s).dom().contains(
                            k,
                        ) by {
                        assert(row_text(row0).dom().contains(k) <==> out_edges(
                            dfa,
                            seen,
                            s,
                        ).dom().contains(k));
                    }
                    assert forall|k: Option<<D::State as Finite>::Model>|
                        row_text(row).dom().contains(k) implies #[trigger] row_text(row)[k]
                        == out_edges(dfa, more, s)[k] by {
                        assert(row_text(row0).dom().contains(k) <==> out_edges(
                            dfa,
                            seen,
                            s,
                        ).dom().contains(k));
                        if row_text(row0).dom().contains(k) {
                            assert(row_text(row0)[k] == out_edges(dfa, seen, s)[k]);
                        }
                    }
                    assert(row_text(row) =~= out_edges(dfa, more, s));
                }
            },
            None => {
                proof {
                    assert forall|u: <D::State as Finite>::Model| #[trigger]
                        successor_of(dfa, more, s, u) implies holds(stack@, u) by {
                        let x = choose|x: u8| more.contains(x) && #[trigger] dfa.step(s, x) == Some(u);
                        let k = choose|k: int| 0 <= k < more.len() && more[k] == x;
                        assert(k < j);
                        assert(seen[k] == x);
                        assert(seen.contains(x));
                        assert(successor_of(dfa, seen, s, u));
                    }
                    assert(row_text(row) =~= out_edges(dfa, more, s));
                }
            },
        }
        j += 1;
    }
    proof {
        assert(alphabet@.take(n as int) =~= alphabet@);
    }
    row
}

/// Lays out the graph of the states that words over the alphabet lead to.
fn explore<D: Dfa<u8>>(dfa: &D, alphabet: &[u8]) -> (rows: Rows<D::State>)
    requires
        dfa.dfa_wf(),
    ensures
        rows_wf(rows),
        rows_graph(rows) == initial_graph(dfa, alphabet@),
{
    let mut rows: Rows<D::State> = OrdMap::new();
    let mut first: Row<D::State> = OrdMap::new();
    first.insert(Some(dfa.initial()), String::new());
    proof {
        assert(row_text(first) =~= source_edges(dfa));
    }
    rows.insert(None, first);
    let mut stack: Vec<D::State> = Vec::new();
    stack.push(dfa.initial());
    proof {
        lemma_start_reachable(dfa, alphabet@);
        assert(stack@[0].model() == dfa.start());
        <Option<D::State> as Finite>::lemma_domain_finite();
        assert(rows.dom() =~= set![None]);
        vstd::set_lib::lemma_len_subset(rows.dom(), <Option<D::State> as Finite>::domain());
    }
    while stack.len() > 0
        invariant
            dfa.dfa_wf(),
            rows_wf(rows),
            rows.dom().contains(None),
            row_text(rows.as_map()[None]) == source_edges(dfa),
            forall|s: <D::State as Finite>::Model| #[trigger]
                rows.dom().contains(Some(s)) ==> reachable(dfa, alphabet@, s) && row_text(
                    rows.as_map()[Some(s)],
                ) == out_edges(dfa, alphabet@, s),
            forall|i: int|
                0 <= i < stack@.len() ==> (#[trigger] stack@[i]).wf() && reachable(
                    dfa,
                    alphabet@,
                    stack@[i].model(),
                ),
            forall|s: <D::State as Finite>::Model, t: <D::State as Finite>::Model|
                rows.dom().contains(Some(s)) && #[trigger] successor_of(dfa, alphabet@, s, t)
                    ==> rows.dom().contains(Some(t)) || holds(stack@, t),
            rows.dom().contains(Some(dfa.start())) || holds(stack@, dfa.start()),
            rows.dom().subset_of(<Option<D::State> as Finite>::domain()),
            <Option<D::State> as Finite>::domain().finite(),
            rows.dom().len() <= <Option<D::State> as Finite>::domain().len(),
        decreases <Option<D::State> as Finite>::domain().len() - rows.dom().len(), stack@.len(),
    {
        let ghost stack0 = stack@;
        let ghost rows0 = rows;
        let state = stack.pop().unwrap();
        let ghost sm = state.model();
        let ghost rest = stack@;
        let key = Some(state.duplicate());
        proof {
            assert(stack0[stack0.len() - 1].wf());
            assert forall|t: <D::State as Finite>::Model| holds(stack0, t) implies holds(rest, t)
                || t == sm by {
                let i = choose|i: int| 0 <= i < stack0.len() && (#[trigger] stack0[i]).model() == t;
                if i < rest.len() {
                    assert(rest[i] == stack0[i]);
                }
            }
            assert forall|i: int| 0 <= i < rest.len() implies (#[trigger] rest[i]).wf()
                && reachable(dfa, alphabet@, rest[i].model()) by {
                assert(rest[i] == stack0[i]);
            }
        }
        if !rows.contains_key(&key) {
            let row = build_row(dfa, alphabet, &state, &mut stack);
            rows.insert(key, row);
            proof {
                key.lemma_in_domain();
                vstd::seq_lib::seq_to_set_is_finite(rows0.keys@);
                vstd::set_lib::lemma_len_subset(rows.dom(), <Option<D::State> as Finite>::domain());
                assert forall|t: <D::State as Finite>::Model| holds(rest, t) implies holds(
                    stack@,
                    t,
                ) by {
                    let i = choose|i: int| 0 <= i < rest.len() && (#[trigger] rest[i]).model() == t;
                    assert(stack@[i] == rest[i]);
                }
                assert forall|i: int| 0 <= i < stack@.len() implies (#[trigger] stack@[i]).wf()
                    && reachable(dfa, alphabet@, stack@[i].model()) by {
                    if i < rest.len() {
                        assert(stack@[i] == rest[i]);
                    } else {
                        let t = stack@[i].model();
                        assert(successor_of(dfa, alphabet@, sm, t));
                        let c = choose|c: u8|
                            alphabet@.contains(c) && #[trigger] dfa.step(sm, c) == Some(t);
                        lemma_successor_reachable(dfa, alphabet@, sm, c);
                    }
                }
                assert forall|k: Option<<D::State as Finite>::Model>|
                    rows.dom().contains(k) implies (#[trigger] rows.as_map()[k]).wf() by {
                    if k != key.model() {
                        assert(rows0.dom().contains(k));
                        assert(rows0.as_map()[k].wf());
                    }
                }
                assert forall|s: <D::State as Finite>::Model| #[trigger]
                    rows.dom().contains(Some(s)) implies reachable(dfa, alphabet@, s) && row_text(
                    rows.as_map()[Some(s)],
                ) == out_edges(dfa, alphabet@, s) by {
                    if s != sm {
                        assert(rows0.dom().contains(Some(s)));
                    }
                }
                assert forall|s: <D::State as Finite>::Model, t: <D::State as Finite>::Model|
                    rows.dom().contains(Some(s)) && #[trigger] successor_of(
                        dfa,
                        alphabet@,
                        s,
                        t,
                    ) implies rows.dom().contains(Some(t)) || holds(stack@, t) by {
                    if s != sm {
                        assert(rows0.dom().contains(Some(s)));
                        assert(rows0.dom().contains(Some(t)) || holds(stack0, t));
                    }
                }
            }
        }
    }
    proof {
        let set = Set::new(|s: <D::State as Finite>::Model| rows.dom().contains(Some(s)));
        assert(closed(dfa, alphabet@, set)) by {
            assert forall|s: <D::State as Finite>::Model, c: u8|
                set.contains(s) && alphabet@.contains(c) && (#[trigger] dfa.step(
                    s,
                    c,
                )) is Some implies set.contains(dfa.step(s, c).unwrap()) by {
                let t = dfa.step(s, c).unwrap();
                assert(successor_of(dfa, alphabet@, s, t));
                assert(rows.dom().contains(Some(t)) || holds(stack@, t));
            }
        }
        assert forall|k: Option<<D::State as Finite>::Model>|
            initial_graph(dfa, alphabet@).dom().contains(k) implies rows.dom().contains(k) by {
            match k {
                Some(s) => {
                    let w = choose|w: Seq<u8>|
                        crate::dfa::over(w, alphabet@) && crate::dfa::run(dfa, w) == Some(s);
                    lemma_closed_holds_run(dfa, alphabet@, set, w);
                },
                None => {},
            }
        }
        assert(rows_graph(rows) =~= initial_graph(dfa, alphabet@));
    }
    rows
}

/// Copies a row, but for the edge to `skip`.
fn copy_row_without<S: Finite>(row: &Row<S>, skip: &Option<S>) -> (out: Row<S>)
    requires
        row.wf(),
        skip.wf(),
    ensures
        out.wf(),
        row_text(out) == row_text(*row).remove(skip.model()),
{
    let mut out: Row<S> = OrdMap::new();
    let n = row.len();
    let mut j: usize = 0;
    proof {
        assert(row.keys@.take(0) =~= Seq::empty());
        assert(row_text(out) =~= row_text(*row).restrict(row.keys@.take(0).to_set()).remove(
            skip.model(),
        ));
    }
    while j < n
        invariant
            row.wf(),
            skip.wf(),
            n == row.keys@.len(),
            j <= n,
            out.wf(),
            row_text(out) == row_text(*row).restrict(row.keys@.take(j as int).to_set()).remove(
                skip.model(),
            ),
        decreases n - j,
    {
        let k = row.key(j);
        let ghost out0 = out;
        proof {
            crate::sorted::lemma_take_to_set(row.keys@, j as int);
        }
        match k.compare(skip) {
            Order::Equal => {},
            _ => {
                out.insert(k.duplicate(), row.value(j).clone());
            },
        }
        proof {
            let before = row_text(*row).restrict(row.keys@.take(j as int).to_set()).remove(
                skip.model(),
            );
            let after = row_text(*row).restrict(row.keys@.take(j + 1).to_set()).remove(
                skip.model(),
            );
            assert forall|x: Option<S::Model>| row_text(out).dom().contains(x) <==> after.dom().contains(
                x,
            ) by {
                assert(row_text(out0).dom().contains(x) <==> before.dom().contains(x));
                assert(row_text(out0).dom().contains(x) <==> out0.dom().contains(x));
                assert(row_text(*row).dom().contains(k.model()));
            }
            assert forall|x: Option<S::Model>| row_text(out).dom().contains(x) implies #[trigger] row_text(
                out,
            )[x] == after[x] by {
                assert(row_text(out0).dom().contains(x) <==> before.dom().contains(x));
                assert(row_text(out0).dom().contains(x) <==> out0.dom().contains(x));
                if out0.dom().contains(x) {
                    assert(row_text(out0)[x] == before[x]);
                }
            }
            assert(row_text(out) =~= after);
        }
        j += 1;
    }
    proof {
        assert(row.keys@.take(n as int) =~= row.keys@);
        assert(row_text(*row).restrict(row.keys@.to_set()) =~= row_text(*row));
    }
    out
}

/// Lays out the edges that leave a node once the node `key` is gone.
fn eliminate_row_exec<S: Finite>(row: &Row<S>, gone: &Row<S>, key: &Option<S>) -> (out: Row<S>)
    requires
        row.wf(),
        gone.wf(),
        key.wf(),
    ensures
        out.wf(),
        row_text(out) == eliminate_row(row_text(*row), row_text(*gone), key.model()),
{
    let ghost km = key.model();
    let ghost r = row_text(*row);
    let ghost g = row_text(*gone);
    let mut out = copy_row_without(row, key);
    match row.get(key) {
        None => {
            proof {
                assert(row_text(out) =~= eliminate_row(r, g, km));
            }
        },
        Some(into) => {
            let around = gone.get(key);
            let ghost a: Option<Seq<char>> = if g.dom().contains(km) {
                Some(g[km])
            } else {
                None
            };
            let n = gone.len();
            let mut j: usize = 0;
            proof {
                assert(gone.keys@.take(0) =~= Seq::empty());
                assert(row_text(out) =~= join_row(
                    r,
                    g.restrict(gone.keys@.take(0).to_set()),
                    km,
                    a,
                ));
            }
            while j < n
                invariant
                    row.wf(),
                    gone.wf(),
                    key.wf(),
                    km == key.model(),
                    r == row_text(*row),
                    g == row_text(*gone),
                    r.dom().contains(km),
                    into@ == r[km],
                    a == match around {
                        Some(l) => Some(l@),
                        None => None,
                    },
                    n == gone.keys@.len(),
                    j <= n,
                    out.wf(),
                    row_text(out) == join_row(
                        r,
                        g.restrict(gone.keys@.take(j as int).to_set()),
                        km,
                        a,
                    ),
                decreases n - j,
            {
                let v = gone.key(j);
                let ghost vm = v.model();
                let ghost out0 = out;
                let ghost done = gone.keys@.take(j as int).to_set();
                proof {
                    crate::sorted::lemma_take_to_set(gone.keys@, j as int);
                    crate::sorted::lemma_sorted_no_duplicates::<Option<S>>(gone.keys@);
                    if done.contains(vm) {
                        let i = choose|i: int|
                            0 <= i < gone.keys@.take(j as int).len() && gone.keys@.take(
                                j as int,
                            )[i] == vm;
                        assert(gone.keys@[i] == gone.keys@[j as int]);
                    }
                }
                match v.compare(key) {
                    Order::Equal => {},
                    _ => {
                        let through = bypass_string(into, around, gone.value(j));
                        let label = match out.get(v) {
                            Some(before) => either_string(before, &through),
                            None => through,
                        };
                        out.insert(v.duplicate(), label);
                    },
                }
                proof {
                    let before = join_row(r, g.restrict(done), km, a);
                    let after = join_row(r, g.restrict(gone.keys@.take(j + 1).to_set()), km, a);
                    assert(g.dom().contains(vm));
                    assert(g[vm] == gone.as_map()[vm]@);
                    assert forall|x: Option<S::Model>| row_text(out).dom().contains(x)
                        <==> after.dom().contains(x) by {
                        assert(row_text(out0).dom().contains(x) <==> before.dom().contains(x));
                        assert(row_text(out0).dom().contains(x) <==> out0.dom().contains(x));
                    }
                    assert forall|x: Option<S::Model>| row_text(out).dom().contains(
                        x,
                    ) implies #[trigger] row_text(out)[x] == after[x] by {
                        assert(row_text(out0).dom().contains(x) <==> before.dom().contains(x));
                        assert(row_text(out0).dom().contains(x) <==> out0.dom().contains(x));
                        if out0.dom().contains(x) {
                            assert(row_text(out0)[x] == before[x]);
                        }
                    }
                    assert(row_text(out) =~= after);
                }
                j += 1;
            }
            proof {
                assert(gone.keys@.take(n as int) =~= gone.keys@);
                assert(g.restrict(gone.keys@.to_set()) =~= g);
            }
        },
    }
    out
}

/// Lays out the graph without the node `key`.
fn eliminate_state<S: Finite>(rows: &Rows<S>, key: &Option<S>) -> (out: Rows<S>)
    requires
        rows_wf(*rows),
        key.wf(),
        rows.dom().contains(key.model()),
    ensures
        rows_wf(out),
        rows_graph(out) == eliminate(rows_graph(*rows), key.model()),
{
    let ghost km = key.model();
    let ghost g = rows_graph(*rows);
    let gone = match rows.get(key) {
        Some(x) => x,
        None => {
            return OrdMap::new();
        },
    };
    let mut out: Rows<S> = OrdMap::new();
    let n = rows.len();
    let mut j: usize = 0;
    proof {
        assert(rows.keys@.take(0) =~= Seq::empty());
        assert(out.dom() =~= rows.keys@.take(0).to_set().remove(km));
    }
    while j < n
        invariant
            rows_wf(*rows),
            key.wf(),
            km == key.model(),
            g == rows_graph(*rows),
            rows.dom().contains(km),
            *gone == rows.as_map()[km],
            n == rows.keys@.len(),
            j <= n,
            rows_wf(out),
            out.dom() == rows.keys@.take(j as int).to_set().remove(km),
            forall|u: Option<S::Model>| #[trigger]
                out.dom().contains(u) ==> row_text(out.as_map()[u]) == eliminate_row(
                    g[u],
                    g[km],
                    km,
                ),
        decreases n - j,
    {
        let u = rows.key(j);
        let ghost out0 = out;
        proof {
            crate::sorted::lemma_take_to_set(rows.keys@, j as int);
        }
        match u.compare(key) {
            Order::Equal => {},
            _ => {
                let row = eliminate_row_exec(rows.value(j), gone, key);
                out.insert(u.duplicate(), row);
                proof {
                    assert forall|k: Option<S::Model>| out.dom().contains(k) implies (
                    #[trigger] out.as_map()[k]).wf() by {
                        if k != u.model() {
                            assert(out0.dom().contains(k));
                        }
                    }
                    assert forall|k: Option<S::Model>| #[trigger]
                        out.dom().contains(k) implies row_text(out.as_map()[k]) == eliminate_row(
                        g[k],
                        g[km],
                        km,
                    ) by {
                        if k != u.model() {
                            assert(out0.dom().contains(k));
                        }
                    }
                }
            },
        }
        proof {
            assert(out.dom() =~= rows.keys@.take(j + 1).to_set().remove(km));
        }
        j += 1;
    }
    proof {
        assert(rows.keys@.take(n as int) =~= rows.keys@);
        assert(rows_graph(out) =~= eliminate(g, km));
    }
    out
}

/// Writes a pattern for the words over `alphabet` that `dfa` accepts, if it
/// accepts any.
///
/// The text is the one that state elimination in ascending order of the
/// states arrives at. It is the text of a pattern that matches exactly the
/// words over `alphabet` that `dfa` accepts. The result is `None` when `dfa`
/// accepts no such word: no pattern of this kind matches nothing.
pub fn try_to_regex<D: Dfa<u8>>(dfa: D, alphabet: &[u8]) -> (r: Option<String>)
    requires
        dfa.dfa_wf(),
    ensures
        match r {
            Some(text) => regex_of(&dfa, alphabet@) == Some(text@),
            None => regex_of(&dfa, alphabet@) is None,
        },
        match r {
            Some(text) => exists|e: Pattern|
                #[trigger] written(e) == text@ && forall|w: Seq<u8>|
                    matched(e, w) <==> over(w, alphabet@) && accepts(&dfa, w),
            None => forall|w: Seq<u8>| over(w, alphabet@) ==> !accepts(&dfa, w),
        },
{
    let mut rows = explore(&dfa, alphabet);
    let order = rows.keys.duplicate();
    let n = order.len();
    let mut i: usize = 0;
    proof {
        rows.keys.lemma_canonical();
        assert(rows.dom() =~= rows_graph(rows).dom());
        lemma_regex_of(&dfa, alphabet@);
        assert(order@.skip(0) =~= order@);
        crate::sorted::lemma_sorted_no_duplicates::<Option<D::State>>(order@);
        assert forall|k: int| 0 <= k < n implies rows.dom().contains(#[trigger] order@[k]) by {
            assert(rows.keys@.contains(rows.keys@[k]));
        }
    }
    while i < n
        invariant
            order.wf(),
            order@.no_duplicates(),
            n == order@.len(),
            i <= n,
            rows_wf(rows),
            forall|k: int| i <= k < n ==> rows.dom().contains(#[trigger] order@[k]),
            eliminate_all(rows_graph(rows), order@.skip(i as int)) == eliminated(&dfa, alphabet@),
        decreases n - i,
    {
        let key = order.get(i);
        let ghost rows0 = rows;
        proof {
            assert(order@.skip(i as int)[0] == order@[i as int]);
            assert(order@.skip(i as int).drop_first() =~= order@.skip(i + 1));
        }
        if key.is_some() {
            rows = eliminate_state(&rows, key);
            proof {
                assert(rows.dom() =~= rows_graph(rows).dom());
                assert forall|k: int| i + 1 <= k < n implies rows.dom().contains(
                    #[trigger] order@[k],
                ) by {
                    assert(rows0.dom().contains(order@[k]));
                    assert(rows_graph(rows0).dom().contains(order@[k]));
                }
            }
        }
        i += 1;
    }
    proof {
        assert(order@.skip(n as int) =~= Seq::empty());
        assert(rows.dom() =~= rows_graph(rows).dom());
    }
    match rows.get(&None) {
        Some(row) => match row.get(&None) {
            Some(text) => Some(text.clone()),
            None => None,
        },
        None => None,
    }
}

/// Writes a pattern for the words over `alphabet` that `dfa` accepts, of
/// which there must be one.
///
/// The text is the one that state elimination in ascending order of the
/// states arrives at. It is the text of a pattern that matches exactly the
/// words over `alphabet` that `dfa` accepts.
pub fn to_regex<D: Dfa<u8>>(dfa: D, alphabet: &[u8]) -> (text: String)
    requires
        dfa.dfa_wf(),
        exists|w: Seq<u8>| over(w, alphabet@) && accepts(&dfa, w),
    ensures
        regex_of(&dfa, alphabet@) == Some(text@),
        exists|e: Pattern|
            #[trigger] written(e) == text@ && forall|w: Seq<u8>|
                matched(e, w) <==> over(w, alphabet@) && accepts(&dfa, w),
{
    match try_to_regex(dfa, alphabet) {
        Some(text) => text,
        None => {
            proof {
                let w = choose|w: Seq<u8>| over(w, alphabet@) && accepts(&dfa, w);
                assert(!accepts(&dfa, w));
            }
            String::new()
        },
    }
}

} // verus!
