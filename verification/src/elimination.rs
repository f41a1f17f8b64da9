//! State elimination on patterns, and why it is right.
//!
//! The graph of `crate::to_regex` carries texts. Here the same graph carries
//! patterns, so that one can speak of the words that its edges match. The text
//! graph is the pattern graph written down, at every stage of the elimination;
//! and the words that lead through the pattern graph from the source to the
//! sink stay the same when a state is taken out. So the text that is left in
//! the end is the text of a pattern that matches exactly the words over the
//! alphabet that the automaton accepts.
use vstd::prelude::*;
use crate::dfa::{Dfa, accepts, over, reachable, run, run_from, lemma_run_concat};
use crate::finite::Finite;
use crate::pattern::{Pattern, written, matched, repeated};
use crate::sorted::{canon, lemma_canon, lemma_sorted_no_duplicates};
use crate::to_regex::{
    Labels,
    Graph,
    edge_text,
    out_edges,
    source_edges,
    initial_graph,
    eliminate_row,
    eliminate,
    eliminate_all,
    eliminated,
    regex_of,
};

verus! {

/// The patterns on the edges that leave one node, by the node they lead to.
pub type Marks<M> = Map<Option<M>, Pattern>;

/// A graph whose edges carry patterns.
pub type Chart<M> = Map<Option<M>, Map<Option<M>, Pattern>>;

/// The pattern of a path that enters a state by `into`, goes round the state's
/// loop any number of times, and leaves it by `out`.
pub open spec fn bypass_pattern(into: Pattern, around: Option<Pattern>, out: Pattern) -> Pattern {
    match around {
        Some(l) => Pattern::Around(Box::new(into), Box::new(l), Box::new(out)),
        None => Pattern::Through(Box::new(into), Box::new(out)),
    }
}

/// The pattern on the edge from `s` to `t`: the symbols of `alphabet` that
/// lead from `s` to `t`, as alternatives.
pub open spec fn edge_pattern<D: Dfa<u8>>(
    d: &D,
    alphabet: Seq<u8>,
    s: <D::State as Finite>::Model,
    t: <D::State as Finite>::Model,
) -> Option<Pattern>
    decreases alphabet.len(),
{
    if alphabet.len() == 0 {
        None
    } else {
        let before = edge_pattern(d, alphabet.drop_last(), s, t);
        if d.step(s, alphabet.last()) == Some(t) {
            match before {
                Some(p) => Some(
                    Pattern::Either(Box::new(p), Box::new(Pattern::Symbol(alphabet.last()))),
                ),
                None => Some(Pattern::Symbol(alphabet.last())),
            }
        } else {
            before
        }
    }
}

/// The patterns on the edges that leave the state `s`.
pub open spec fn out_patterns<D: Dfa<u8>>(
    d: &D,
    alphabet: Seq<u8>,
    s: <D::State as Finite>::Model,
) -> Marks<<D::State as Finite>::Model> {
    Map::new(
        |t: Option<<D::State as Finite>::Model>|
            match t {
                Some(t) => edge_pattern(d, alphabet, s, t) is Some,
                None => d.accepting(s),
            },
        |t: Option<<D::State as Finite>::Model>|
            match t {
                Some(t) => edge_pattern(d, alphabet, s, t).unwrap(),
                None => Pattern::Blank,
            },
    )
}

/// The one edge that leaves the source: to the start state, matching the empty word.
pub open spec fn source_patterns<D: Dfa<u8>>(d: &D) -> Marks<<D::State as Finite>::Model> {
    Map::empty().insert(Some(d.start()), Pattern::Blank)
}

/// The pattern graph before any state is taken out.
pub open spec fn initial_chart<D: Dfa<u8>>(d: &D, alphabet: Seq<u8>) -> Chart<
    <D::State as Finite>::Model,
> {
    Map::new(
        |u: Option<<D::State as Finite>::Model>|
            match u {
                Some(s) => reachable(d, alphabet, s),
                None => true,
            },
        |u: Option<<D::State as Finite>::Model>|
            match u {
                Some(s) => out_patterns(d, alphabet, s),
                None => source_patterns(d),
            },
    )
}

/// The edges that leave a node once the node `s` is gone, where `row` holds
/// the edges that left the node before, `gone` those that left `s`, and
/// `around` the pattern of the loop at `s`, if there was one.
pub open spec fn join_marks<M>(
    row: Marks<M>,
    gone: Marks<M>,
    s: Option<M>,
    around: Option<Pattern>,
) -> Marks<M> {
    Map::new(
        |v: Option<M>|
            v != s && (row.dom().contains(v) || (row.dom().contains(s) && gone.dom().contains(v))),
        |v: Option<M>|
            if row.dom().contains(s) && gone.dom().contains(v) {
                let through = bypass_pattern(row[s], around, gone[v]);
                if row.dom().contains(v) {
                    Pattern::Either(Box::new(row[v]), Box::new(through))
                } else {
                    through
                }
            } else {
                row[v]
            },
    )
}

/// The loop at `s`, if there is one.
pub open spec fn loop_of<M>(gone: Marks<M>, s: Option<M>) -> Option<Pattern> {
    if gone.dom().contains(s) {
        Some(gone[s])
    } else {
        None
    }
}

/// The edges that leave a node once the node `s` is gone.
pub open spec fn eliminate_marks<M>(row: Marks<M>, gone: Marks<M>, s: Option<M>) -> Marks<M> {
    join_marks(row, gone, s, loop_of(gone, s))
}

/// The pattern graph without the node `s`.
pub open spec fn eliminate_chart<M>(g: Chart<M>, s: Option<M>) -> Chart<M> {
    Map::new(
        |u: Option<M>| g.dom().contains(u) && u != s,
        |u: Option<M>| eliminate_marks(g[u], g[s], s),
    )
}

/// The pattern graph without the states that `order` lists.
pub open spec fn eliminate_all_chart<M>(g: Chart<M>, order: Seq<Option<M>>) -> Chart<M>
    decreases order.len(),
{
    if order.len() == 0 {
        g
    } else if order[0] is Some {
        eliminate_all_chart(eliminate_chart(g, order[0]), order.drop_first())
    } else {
        eliminate_all_chart(g, order.drop_first())
    }
}

/// The texts of the patterns of a row.
pub open spec fn texts<M>(row: Marks<M>) -> Labels<M> {
    Map::new(|k: Option<M>| row.dom().contains(k), |k: Option<M>| written(row[k]))
}

/// The text graph of a pattern graph.
pub open spec fn chart_texts<M>(g: Chart<M>) -> Graph<M> {
    Map::new(|k: Option<M>| g.dom().contains(k), |k: Option<M>| texts(g[k]))
}

/// The text on an edge of the first graph is that of the pattern on it.
pub proof fn lemma_edge_text<D: Dfa<u8>>(
    d: &D,
    alphabet: Seq<u8>,
    s: <D::State as Finite>::Model,
    t: <D::State as Finite>::Model,
)
    ensures
        edge_text(d, alphabet, s, t) == match edge_pattern(d, alphabet, s, t) {
            Some(p) => Some(written(p)),
            None => None,
        },
    decreases alphabet.len(),
{
    if alphabet.len() > 0 {
        lemma_edge_text(d, alphabet.drop_last(), s, t);
        let c = alphabet.last();
        assert(written(Pattern::Symbol(c)) == crate::to_regex::symbol_text(c));
        match edge_pattern(d, alphabet.drop_last(), s, t) {
            Some(p) => {
                lemma_written_either(p, Pattern::Symbol(c));
            },
            None => {},
        }
    }
}

/// The text of alternatives is the alternatives of the texts.
pub proof fn lemma_written_either(a: Pattern, b: Pattern)
    ensures
        written(Pattern::Either(Box::new(a), Box::new(b))) == crate::to_regex::either(
            written(a),
            written(b),
        ),
{
}

/// The text of a bypass is the bypass of the texts.
pub proof fn lemma_written_bypass(into: Pattern, around: Option<Pattern>, out: Pattern)
    ensures
        written(bypass_pattern(into, around, out)) == crate::to_regex::bypass(
            written(into),
            match around {
                Some(l) => Some(written(l)),
                None => None,
            },
            written(out),
        ),
{
}

/// Taking a state out of a row of patterns and writing the row down gives what
/// taking it out of the row of texts gives.
pub proof fn lemma_eliminate_marks_texts<M>(row: Marks<M>, gone: Marks<M>, s: Option<M>)
    ensures
        texts(eliminate_marks(row, gone, s)) == eliminate_row(texts(row), texts(gone), s),
{
    let lhs = texts(eliminate_marks(row, gone, s));
    let rhs = eliminate_row(texts(row), texts(gone), s);
    assert forall|v: Option<M>| lhs.dom().contains(v) <==> rhs.dom().contains(v) by {}
    assert forall|v: Option<M>| lhs.dom().contains(v) implies #[trigger] lhs[v] == rhs[v] by {
        if row.dom().contains(s) && gone.dom().contains(v) {
            lemma_written_bypass(row[s], loop_of(gone, s), gone[v]);
            if row.dom().contains(v) {
                lemma_written_either(row[v], bypass_pattern(row[s], loop_of(gone, s), gone[v]));
            }
        }
    }
    assert(lhs =~= rhs);
}

/// The first text graph is the first pattern graph, written down.
pub proof fn lemma_initial_texts<D: Dfa<u8>>(d: &D, alphabet: Seq<u8>)
    ensures
        chart_texts(initial_chart(d, alphabet)) == initial_graph(d, alphabet),
{
    let g = initial_chart(d, alphabet);
    assert forall|u: Option<<D::State as Finite>::Model>| g.dom().contains(u) implies texts(g[u])
        == initial_graph(d, alphabet)[u] by {
        match u {
            Some(s) => {
                assert forall|t: Option<<D::State as Finite>::Model>|
                    texts(out_patterns(d, alphabet, s)).dom().contains(t) <==> out_edges(
                        d,
                        alphabet,
                        s,
                    ).dom().contains(t) by {
                    if t is Some {
                        lemma_edge_text(d, alphabet, s, t.unwrap());
                    }
                }
                assert forall|t: Option<<D::State as Finite>::Model>|
                    texts(out_patterns(d, alphabet, s)).dom().contains(t) implies #[trigger] texts(
                        out_patterns(d, alphabet, s),
                    )[t] == out_edges(d, alphabet, s)[t] by {
                    if t is Some {
                        lemma_edge_text(d, alphabet, s, t.unwrap());
                    }
                }
                assert(texts(out_patterns(d, alphabet, s)) =~= out_edges(d, alphabet, s));
            },
            None => {
                assert(texts(source_patterns(d)) =~= source_edges(d));
            },
        }
    }
    assert(chart_texts(g) =~= initial_graph(d, alphabet));
}

/// Taking a state out of the pattern graph and writing the result down gives
/// what taking it out of the text graph gives.
pub proof fn lemma_eliminate_texts<M>(g: Chart<M>, s: Option<M>)
    requires
        g.dom().contains(s),
    ensures
        chart_texts(eliminate_chart(g, s)) == eliminate(chart_texts(g), s),
{
    let lhs = chart_texts(eliminate_chart(g, s));
    let rhs = eliminate(chart_texts(g), s);
    assert forall|u: Option<M>| lhs.dom().contains(u) implies #[trigger] lhs[u] == rhs[u] by {
        let row = g[u];
        let gone = g[s];
        assert(chart_texts(g)[u] == texts(row));
        assert(chart_texts(g)[s] == texts(gone));
        lemma_eliminate_marks_texts(row, gone, s);
    }
    assert(lhs =~= rhs);
}

/// Whether the node `u` of `g` is still there when the states that `order`
/// lists are gone.
pub open spec fn stays<M>(g: Chart<M>, order: Seq<Option<M>>, u: Option<M>) -> bool {
    g.dom().contains(u) && !(u is Some && order.contains(u))
}

proof fn lemma_contains_drop_first<A>(q: Seq<A>, x: A)
    requires
        q.len() > 0,
    ensures
        q.contains(x) <==> x == q[0] || q.drop_first().contains(x),
{
    let rest = q.drop_first();
    if q.contains(x) {
        let k = choose|k: int| 0 <= k < q.len() && q[k] == x;
        if k > 0 {
            assert(rest[k - 1] == x);
        }
    }
    if rest.contains(x) {
        let k = choose|k: int| 0 <= k < rest.len() && rest[k] == x;
        assert(q[k + 1] == x);
    }
    assert(q.contains(q[0]));
}

proof fn lemma_drop_first_listed<M>(g: Chart<M>, order: Seq<Option<M>>)
    requires
        order.len() > 0,
        order.no_duplicates(),
        forall|k: int| 0 <= k < order.len() ==> g.dom().contains(#[trigger] order[k]),
    ensures
        order.drop_first().no_duplicates(),
        forall|k: int|
            0 <= k < order.drop_first().len() ==> g.dom().contains(
                #[trigger] order.drop_first()[k],
            ) && order.drop_first()[k] != order[0],
{
    let rest = order.drop_first();
    assert forall|k: int| 0 <= k < rest.len() implies g.dom().contains(#[trigger] rest[k])
        && rest[k] != order[0] by {
        assert(rest[k] == order[k + 1]);
    }
    assert forall|i: int, j: int| 0 <= i < rest.len() && 0 <= j < rest.len() && i != j implies rest[i]
        != rest[j] by {
        assert(rest[i] == order[i + 1]);
        assert(rest[j] == order[j + 1]);
    }
}

/// Taking the states out of the pattern graph and writing the result down
/// gives what taking them out of the text graph gives. In the end the nodes
/// that were not listed are left.
pub proof fn lemma_eliminate_all_texts<M>(g: Chart<M>, order: Seq<Option<M>>)
    requires
        order.no_duplicates(),
        forall|k: int| 0 <= k < order.len() ==> g.dom().contains(#[trigger] order[k]),
    ensures
        chart_texts(eliminate_all_chart(g, order)) == eliminate_all(chart_texts(g), order),
        forall|u: Option<M>| #[trigger]
            eliminate_all_chart(g, order).dom().contains(u) <==> stays(g, order, u),
    decreases order.len(),
{
    if order.len() > 0 {
        let rest = order.drop_first();
        lemma_drop_first_listed(g, order);
        if order[0] is Some {
            let g1 = eliminate_chart(g, order[0]);
            lemma_eliminate_texts(g, order[0]);
            lemma_eliminate_all_texts(g1, rest);
            assert forall|u: Option<M>| #[trigger]
                eliminate_all_chart(g, order).dom().contains(u) <==> stays(g, order, u) by {
                lemma_contains_drop_first(order, u);
                assert(eliminate_all_chart(g1, rest).dom().contains(u) <==> stays(g1, rest, u));
            }
        } else {
            lemma_eliminate_all_texts(g, rest);
            assert forall|u: Option<M>| #[trigger]
                eliminate_all_chart(g, order).dom().contains(u) <==> stays(g, order, u) by {
                lemma_contains_drop_first(order, u);
                assert(eliminate_all_chart(g, rest).dom().contains(u) <==> stays(g, rest, u));
            }
        }
    } else {
        assert forall|u: Option<M>| #[trigger]
            eliminate_all_chart(g, order).dom().contains(u) <==> stays(g, order, u) by {
            if order.contains(u) {
                let k = choose|k: int| 0 <= k < order.len() && order[k] == u;
            }
        }
    }
}

/// Whether `w` leads through `g` from the node `u` to the sink, over `n`
/// edges: `w` splits into one word for each edge, and each edge matches its word.
pub open spec fn walks<M>(g: Chart<M>, u: Option<M>, w: Seq<u8>, n: nat) -> bool
    decreases n,
{
    n > 0 && g.dom().contains(u) && exists|v: Option<M>, i: int|
        g[u].dom().contains(v) && 0 <= i <= w.len() && #[trigger] matched(g[u][v], w.take(i))
            && (match v {
            None => i == w.len() && n == 1,
            Some(_) => walks(g, v, w.skip(i), (n - 1) as nat),
        })
}

/// Whether `w` leads through `g` from the source to the sink.
pub open spec fn leads_through<M>(g: Chart<M>, w: Seq<u8>) -> bool {
    exists|n: nat| walks(g, None, w, n)
}

proof fn lemma_step_on<M>(g: Chart<M>, u: Option<M>, v: Option<M>, a: Seq<u8>, rest: Seq<u8>, n: nat)
    requires
        g.dom().contains(u),
        g[u].dom().contains(v),
        v is Some,
        matched(g[u][v], a),
        walks(g, v, rest, n),
    ensures
        walks(g, u, a + rest, n + 1),
{
    let w = a + rest;
    let i = a.len() as int;
    assert(w.take(i) =~= a);
    assert(w.skip(i) =~= rest);
    assert(matched(g[u][v], w.take(i)));
}

proof fn lemma_step_out<M>(g: Chart<M>, u: Option<M>, a: Seq<u8>)
    requires
        g.dom().contains(u),
        g[u].dom().contains(None),
        matched(g[u][None], a),
    ensures
        walks(g, u, a, 1),
{
    let i = a.len() as int;
    assert(a.take(i) =~= a);
    assert(matched(g[u][None], a.take(i)));
}

/// The first edge of a walk: where it leads, its word, and the rest of the word.
proof fn lemma_first_step<M>(g: Chart<M>, u: Option<M>, w: Seq<u8>, n: nat) -> (r: (
    Option<M>,
    Seq<u8>,
    Seq<u8>,
))
    requires
        walks(g, u, w, n),
    ensures
        n > 0,
        g.dom().contains(u),
        g[u].dom().contains(r.0),
        matched(g[u][r.0], r.1),
        w == r.1 + r.2,
        match r.0 {
            None => r.2.len() == 0 && n == 1,
            Some(_) => walks(g, r.0, r.2, (n - 1) as nat),
        },
{
    let (v, i) = choose|v: Option<M>, i: int|
        g[u].dom().contains(v) && 0 <= i <= w.len() && #[trigger] matched(g[u][v], w.take(i))
            && (match v {
            None => i == w.len() && n == 1,
            Some(_) => walks(g, v, w.skip(i), (n - 1) as nat),
        });
    assert(w =~= w.take(i) + w.skip(i));
    (v, w.take(i), w.skip(i))
}

/// Whether `l` can be read going round a loop, or there being none, is empty.
pub open spec fn goes_round(around: Option<Pattern>, l: Seq<u8>) -> bool {
    match around {
        Some(p) => repeated(p, l),
        None => l.len() == 0,
    }
}

proof fn lemma_repeated_more(p: Pattern, a: Seq<u8>, l: Seq<u8>)
    requires
        matched(p, a),
        repeated(p, l),
    ensures
        repeated(p, a + l),
{
    if a.len() == 0 {
        assert(a + l =~= l);
    } else {
        let k = a.len() as int;
        assert((a + l).take(k) =~= a);
        assert((a + l).skip(k) =~= l);
    }
}

proof fn lemma_matched_bypass(
    into: Pattern,
    around: Option<Pattern>,
    out: Pattern,
    a: Seq<u8>,
    l: Seq<u8>,
    b: Seq<u8>,
)
    requires
        matched(into, a),
        goes_round(around, l),
        matched(out, b),
    ensures
        matched(bypass_pattern(into, around, out), a + l + b),
{
    let x = a + l + b;
    match around {
        Some(p) => {
            let i = a.len() as int;
            let j = (a.len() + l.len()) as int;
            assert(x.take(i) =~= a);
            assert(x.subrange(i, j) =~= l);
            assert(x.skip(j) =~= b);
            assert(matched(into, x.take(i)) && repeated(p, x.subrange(i, j)) && matched(
                out,
                x.skip(j),
            ));
        },
        None => {
            let i = a.len() as int;
            assert(x.take(i) =~= a);
            assert(x.skip(i) =~= b);
            assert(matched(into, x.take(i)) && matched(out, x.skip(i)));
        },
    }
}

proof fn lemma_bypass_split(into: Pattern, around: Option<Pattern>, out: Pattern, x: Seq<u8>) -> (r:
    (Seq<u8>, Seq<u8>, Seq<u8>))
    requires
        matched(bypass_pattern(into, around, out), x),
    ensures
        x == r.0 + r.1 + r.2,
        matched(into, r.0),
        goes_round(around, r.1),
        matched(out, r.2),
{
    match around {
        Some(p) => {
            let (i, j) = choose|i: int, j: int|
                0 <= i <= j <= x.len() && matched(into, x.take(i)) && repeated(
                    p,
                    #[trigger] x.subrange(i, j),
                ) && matched(out, x.skip(j));
            assert(x =~= x.take(i) + x.subrange(i, j) + x.skip(j));
            (x.take(i), x.subrange(i, j), x.skip(j))
        },
        None => {
            let i = choose|i: int|
                0 <= i <= x.len() && matched(into, x.take(i)) && matched(out, #[trigger] x.skip(i));
            assert(x =~= x.take(i) + Seq::<u8>::empty() + x.skip(i));
            (x.take(i), Seq::empty(), x.skip(i))
        },
    }
}

/// An edge that was there before a state is taken out still matches what it matched.
proof fn lemma_kept_edge<M>(row: Marks<M>, gone: Marks<M>, s: Option<M>, v: Option<M>, a: Seq<u8>)
    requires
        row.dom().contains(v),
        v != s,
        matched(row[v], a),
    ensures
        eliminate_marks(row, gone, s).dom().contains(v),
        matched(eliminate_marks(row, gone, s)[v], a),
{
}

/// The edge that bypasses a state matches what the bypass matches.
proof fn lemma_new_edge<M>(row: Marks<M>, gone: Marks<M>, s: Option<M>, v: Option<M>, x: Seq<u8>)
    requires
        row.dom().contains(s),
        gone.dom().contains(v),
        v != s,
        matched(bypass_pattern(row[s], loop_of(gone, s), gone[v]), x),
    ensures
        eliminate_marks(row, gone, s).dom().contains(v),
        matched(eliminate_marks(row, gone, s)[v], x),
{
}

/// What an edge matches after a state is taken out, the edge that was there
/// matched, or the bypass matches.
proof fn lemma_edge_origin<M>(row: Marks<M>, gone: Marks<M>, s: Option<M>, v: Option<M>, x: Seq<u8>)
    requires
        eliminate_marks(row, gone, s).dom().contains(v),
        matched(eliminate_marks(row, gone, s)[v], x),
    ensures
        v != s,
        (row.dom().contains(v) && matched(row[v], x)) || (row.dom().contains(s)
            && gone.dom().contains(v) && matched(
            bypass_pattern(row[s], loop_of(gone, s), gone[v]),
            x,
        )),
{
}

/// A walk from `s` can be put behind any number of rounds of the loop at `s`.
proof fn lemma_go_round<M>(g: Chart<M>, s: Option<M>, l: Seq<u8>, x: Seq<u8>, m: nat) -> (m2: nat)
    requires
        s is Some,
        walks(g, s, x, m),
        goes_round(loop_of(g[s], s), l),
    ensures
        walks(g, s, l + x, m2),
    decreases l.len(),
{
    if l.len() == 0 {
        assert(l + x =~= x);
        m
    } else {
        let p = g[s][s];
        let k = choose|k: int|
            0 < k <= l.len() && matched(p, #[trigger] l.take(k)) && repeated(p, l.skip(k));
        let m1 = lemma_go_round(g, s, l.skip(k), x, m);
        lemma_step_on(g, s, s, l.take(k), l.skip(k) + x, m1);
        assert(l.take(k) + (l.skip(k) + x) =~= l + x);
        (m1 + 1) as nat
    }
}

/// A walk from `s` goes round the loop at `s` some number of times and then
/// leaves `s` for another node.
proof fn lemma_leave<M>(g: Chart<M>, s: Option<M>, y: Seq<u8>, m: nat) -> (r: (
    Seq<u8>,
    Option<M>,
    Seq<u8>,
    Seq<u8>,
    nat,
))
    requires
        s is Some,
        walks(g, s, y, m),
    ensures
        y == r.0 + r.2 + r.3,
        r.1 != s,
        g[s].dom().contains(r.1),
        goes_round(loop_of(g[s], s), r.0),
        matched(g[s][r.1], r.2),
        match r.1 {
            None => r.3.len() == 0,
            Some(_) => r.4 < m && walks(g, r.1, r.3, r.4),
        },
    decreases m,
{
    let (v, a, rest) = lemma_first_step(g, s, y, m);
    if v == s {
        let (l, v2, b, rest2, m2) = lemma_leave(g, s, rest, (m - 1) as nat);
        lemma_repeated_more(g[s][s], a, l);
        assert(y =~= (a + l) + b + rest2);
        (a + l, v2, b, rest2, m2)
    } else {
        assert(y =~= Seq::<u8>::empty() + a + rest);
        (Seq::empty(), v, a, rest, (m - 1) as nat)
    }
}

/// A walk that does not begin at `s` is still there when `s` is gone.
proof fn lemma_walk_survives<M>(g: Chart<M>, s: Option<M>, u: Option<M>, w: Seq<u8>, n: nat) -> (m:
    nat)
    requires
        s is Some,
        g.dom().contains(s),
        u != s,
        walks(g, u, w, n),
    ensures
        walks(eliminate_chart(g, s), u, w, m),
    decreases n,
{
    let g2 = eliminate_chart(g, s);
    let (v, a, rest) = lemma_first_step(g, u, w, n);
    assert(g2.dom().contains(u));
    assert(g2[u] == eliminate_marks(g[u], g[s], s));
    if v != s {
        lemma_kept_edge(g[u], g[s], s, v, a);
        match v {
            None => {
                lemma_step_out(g2, u, a);
                assert(w =~= a);
                1
            },
            Some(_) => {
                let m1 = lemma_walk_survives(g, s, v, rest, (n - 1) as nat);
                lemma_step_on(g2, u, v, a, rest, m1);
                (m1 + 1) as nat
            },
        }
    } else {
        let (l, v2, b, rest2, m2) = lemma_leave(g, s, rest, (n - 1) as nat);
        lemma_matched_bypass(g[u][s], loop_of(g[s], s), g[s][v2], a, l, b);
        lemma_new_edge(g[u], g[s], s, v2, a + l + b);
        match v2 {
            None => {
                lemma_step_out(g2, u, a + l + b);
                assert(w =~= a + l + b);
                1
            },
            Some(_) => {
                let m3 = lemma_walk_survives(g, s, v2, rest2, m2);
                lemma_step_on(g2, u, v2, a + l + b, rest2, m3);
                assert(w =~= (a + l + b) + rest2);
                (m3 + 1) as nat
            },
        }
    }
}

/// A walk in the graph without `s` was there, through `s` or not, before `s` went.
proof fn lemma_walk_was_there<M>(g: Chart<M>, s: Option<M>, u: Option<M>, w: Seq<u8>, n: nat) -> (m:
    nat)
    requires
        s is Some,
        g.dom().contains(s),
        walks(eliminate_chart(g, s), u, w, n),
    ensures
        walks(g, u, w, m),
    decreases n,
{
    let g2 = eliminate_chart(g, s);
    let (v, x, rest) = lemma_first_step(g2, u, w, n);
    let row = g[u];
    let gone = g[s];
    assert(g2[u] == eliminate_marks(row, gone, s));
    lemma_edge_origin(row, gone, s, v, x);
    if row.dom().contains(v) && matched(row[v], x) {
        match v {
            None => {
                lemma_step_out(g, u, x);
                assert(w =~= x);
                1
            },
            Some(_) => {
                let m1 = lemma_walk_was_there(g, s, v, rest, (n - 1) as nat);
                lemma_step_on(g, u, v, x, rest, m1);
                (m1 + 1) as nat
            },
        }
    } else {
        let (a, l, b) = lemma_bypass_split(row[s], loop_of(gone, s), gone[v], x);
        let m_s: nat = match v {
            None => {
                lemma_step_out(g, s, b);
                assert(b + rest =~= b);
                1
            },
            Some(_) => {
                let m1 = lemma_walk_was_there(g, s, v, rest, (n - 1) as nat);
                lemma_step_on(g, s, v, b, rest, m1);
                (m1 + 1) as nat
            },
        };
        let m_l = lemma_go_round(g, s, l, b + rest, m_s);
        lemma_step_on(g, u, s, a, l + (b + rest), m_l);
        assert(w =~= a + (l + (b + rest)));
        (m_l + 1) as nat
    }
}

/// Taking a state out leaves the words that lead from the source to the sink
/// as they were.
pub proof fn lemma_eliminate_keeps_words<M>(g: Chart<M>, s: Option<M>, w: Seq<u8>)
    requires
        s is Some,
        g.dom().contains(s),
    ensures
        leads_through(eliminate_chart(g, s), w) == leads_through(g, w),
{
    if leads_through(g, w) {
        let n = choose|n: nat| walks(g, None, w, n);
        let m = lemma_walk_survives(g, s, None, w, n);
    }
    if leads_through(eliminate_chart(g, s), w) {
        let n = choose|n: nat| walks(eliminate_chart(g, s), None, w, n);
        let m = lemma_walk_was_there(g, s, None, w, n);
    }
}

/// Taking out all the states that `order` lists leaves the words that lead
/// from the source to the sink as they were.
pub proof fn lemma_eliminate_all_keeps_words<M>(g: Chart<M>, order: Seq<Option<M>>, w: Seq<u8>)
    requires
        order.no_duplicates(),
        forall|k: int| 0 <= k < order.len() ==> g.dom().contains(#[trigger] order[k]),
    ensures
        leads_through(eliminate_all_chart(g, order), w) == leads_through(g, w),
    decreases order.len(),
{
    if order.len() > 0 {
        let rest = order.drop_first();
        lemma_drop_first_listed(g, order);
        if order[0] is Some {
            let g1 = eliminate_chart(g, order[0]);
            lemma_eliminate_keeps_words(g, order[0], w);
            lemma_eliminate_all_keeps_words(g1, rest, w);
        } else {
            lemma_eliminate_all_keeps_words(g, rest, w);
        }
    }
}

/// What the pattern on an edge of the first graph matches: the symbols of
/// the alphabet that lead along that edge, each as a word of its own.
pub proof fn lemma_edge_pattern<D: Dfa<u8>>(
    d: &D,
    alphabet: Seq<u8>,
    s: <D::State as Finite>::Model,
    t: <D::State as Finite>::Model,
    x: Seq<u8>,
)
    ensures
        (edge_pattern(d, alphabet, s, t) is Some && matched(
            edge_pattern(d, alphabet, s, t).unwrap(),
            x,
        )) <==> (x.len() == 1 && alphabet.contains(x[0]) && d.step(s, x[0]) == Some(t)),
    decreases alphabet.len(),
{
    if alphabet.len() > 0 {
        let before = alphabet.drop_last();
        let c = alphabet.last();
        lemma_edge_pattern(d, before, s, t, x);
        assert(alphabet.contains(c)) by {
            assert(alphabet[alphabet.len() - 1] == c);
        }
        assert forall|y: u8| alphabet.contains(y) <==> before.contains(y) || y == c by {
            if alphabet.contains(y) {
                let k = choose|k: int| 0 <= k < alphabet.len() && alphabet[k] == y;
                if k < before.len() {
                    assert(before[k] == y);
                }
            }
            if before.contains(y) {
                let k = choose|k: int| 0 <= k < before.len() && before[k] == y;
                assert(alphabet[k] == y);
            }
        }
        assert(matched(Pattern::Symbol(c), x) <==> x == seq![c]);
        if x == seq![c] {
            assert(x.len() == 1 && x[0] == c);
        }
        if x.len() == 1 && x[0] == c {
            assert(x =~= seq![c]);
        }
        match edge_pattern(d, before, s, t) {
            Some(p) => {
                assert(matched(Pattern::Either(Box::new(p), Box::new(Pattern::Symbol(c))), x)
                    <==> matched(p, x) || matched(Pattern::Symbol(c), x));
            },
            None => {},
        }
    }
}

/// A walk through the first graph from a state is a run of the automaton
/// from that state, on a word over the alphabet, that ends in an accepting state.
proof fn lemma_walk_is_run<D: Dfa<u8>>(
    d: &D,
    alphabet: Seq<u8>,
    s: <D::State as Finite>::Model,
    v: Seq<u8>,
    n: nat,
)
    requires
        walks(initial_chart(d, alphabet), Some(s), v, n),
    ensures
        over(v, alphabet),
        run_from(d, s, v) is Some,
        d.accepting(run_from(d, s, v).unwrap()),
    decreases n,
{
    let g = initial_chart(d, alphabet);
    let (t, a, rest) = lemma_first_step(g, Some(s), v, n);
    assert(g[Some(s)] == out_patterns(d, alphabet, s));
    match t {
        None => {
            assert(v =~= Seq::<u8>::empty());
        },
        Some(t1) => {
            lemma_edge_pattern(d, alphabet, s, t1, a);
            lemma_walk_is_run(d, alphabet, t1, rest, (n - 1) as nat);
            lemma_run_concat(d, s, a, rest);
            crate::dfa::lemma_run_single(d, s, a);
            assert forall|i: int| 0 <= i < v.len() implies alphabet.contains(#[trigger] v[i]) by {
                if i == 0 {
                    assert(v[0] == a[0]);
                } else {
                    assert(v[i] == rest[i - 1]);
                }
            }
        },
    }
}

/// A run of the automaton from a state that words over the alphabet lead to,
/// on a word over the alphabet, that ends in an accepting state, is a walk
/// through the first graph.
proof fn lemma_run_is_walk<D: Dfa<u8>>(
    d: &D,
    alphabet: Seq<u8>,
    s: <D::State as Finite>::Model,
    v: Seq<u8>,
)
    requires
        reachable(d, alphabet, s),
        over(v, alphabet),
        run_from(d, s, v) is Some,
        d.accepting(run_from(d, s, v).unwrap()),
    ensures
        walks(initial_chart(d, alphabet), Some(s), v, v.len() + 1),
    decreases v.len(),
{
    let g = initial_chart(d, alphabet);
    assert(g.dom().contains(Some(s)));
    assert(g[Some(s)] == out_patterns(d, alphabet, s));
    if v.len() == 0 {
        lemma_step_out(g, Some(s), v);
    } else {
        let a = v.take(1);
        let rest = v.skip(1);
        let c = v[0];
        assert(v =~= a + rest);
        assert(a =~= seq![c]);
        crate::dfa::lemma_run_single(d, s, a);
        lemma_run_concat(d, s, a, rest);
        let t1 = d.step(s, c).unwrap();
        assert(alphabet.contains(v[0]));
        crate::dfa::lemma_successor_reachable(d, alphabet, s, c);
        assert(over(rest, alphabet)) by {
            assert forall|i: int| 0 <= i < rest.len() implies alphabet.contains(
                #[trigger] rest[i],
            ) by {
                assert(rest[i] == v[i + 1]);
            }
        }
        lemma_run_is_walk(d, alphabet, t1, rest);
        lemma_edge_pattern(d, alphabet, s, t1, a);
        lemma_step_on(g, Some(s), Some(t1), a, rest, (rest.len() + 1) as nat);
    }
}

/// The words that lead through the first graph are the words over the
/// alphabet that the automaton accepts.
pub proof fn lemma_initial_words<D: Dfa<u8>>(d: &D, alphabet: Seq<u8>, w: Seq<u8>)
    ensures
        leads_through(initial_chart(d, alphabet), w) == (over(w, alphabet) && accepts(d, w)),
{
    let g = initial_chart(d, alphabet);
    assert(g.dom().contains(None));
    assert(g[None] == source_patterns(d));
    if leads_through(g, w) {
        let n = choose|n: nat| walks(g, None, w, n);
        let (t, a, rest) = lemma_first_step(g, None, w, n);
        assert(t == Some(d.start()));
        assert(a.len() == 0);
        assert(w =~= rest);
        lemma_walk_is_run(d, alphabet, d.start(), w, (n - 1) as nat);
    }
    if over(w, alphabet) && accepts(d, w) {
        crate::dfa::lemma_start_reachable(d, alphabet);
        lemma_run_is_walk(d, alphabet, d.start(), w);
        assert(matched(Pattern::Blank, Seq::<u8>::empty()));
        lemma_step_on(g, None, Some(d.start()), Seq::empty(), w, w.len() + 1);
        assert(Seq::<u8>::empty() + w =~= w);
        assert(walks(g, None, w, w.len() + 2));
    }
}

/// State elimination is right: if the automaton has finitely many states that
/// words over the alphabet lead to, the text that the elimination arrives at
/// is the text of a pattern that matches exactly the words over the alphabet
/// that the automaton accepts; and it arrives at none exactly if the
/// automaton accepts no such word.
pub proof fn lemma_regex_of<D: Dfa<u8>>(d: &D, alphabet: Seq<u8>)
    requires
        initial_graph(d, alphabet).dom().finite(),
    ensures
        match regex_of(d, alphabet) {
            Some(text) => exists|e: Pattern|
                #[trigger] written(e) == text && forall|w: Seq<u8>|
                    matched(e, w) <==> over(w, alphabet) && accepts(d, w),
            None => forall|w: Seq<u8>| over(w, alphabet) ==> !accepts(d, w),
        },
{
    let g0 = initial_chart(d, alphabet);
    lemma_initial_texts(d, alphabet);
    let keys = initial_graph(d, alphabet).dom();
    assert(keys =~= g0.dom());
    let order = canon::<Option<D::State>>(keys);
    lemma_canon::<Option<D::State>>(keys);
    lemma_sorted_no_duplicates::<Option<D::State>>(order);
    assert forall|k: int| 0 <= k < order.len() implies g0.dom().contains(#[trigger] order[k]) by {
        assert(order.contains(order[k]));
        assert(order.to_set().contains(order[k]));
    }
    let g = eliminate_all_chart(g0, order);
    lemma_eliminate_all_texts(g0, order);
    assert(chart_texts(g) == eliminated(d, alphabet));
    // only the source is left
    assert forall|u: Option<<D::State as Finite>::Model>| g.dom().contains(u) <==> u is None by {
        assert(g.dom().contains(u) <==> stays(g0, order, u));
        if u is Some && g0.dom().contains(u) {
            assert(order.to_set().contains(u));
        }
    }
    assert(g.dom().contains(None));
    assert(chart_texts(g)[None] == texts(g[None]));
    assert(texts(g[None]).dom().contains(None) <==> g[None].dom().contains(None));
    // the words through what is left
    assert forall|w: Seq<u8>| leads_through(g, w) <==> (g[None].dom().contains(None) && matched(
        g[None][None],
        w,
    )) by {
        if leads_through(g, w) {
            let n = choose|n: nat| walks(g, None, w, n);
            let (t, a, rest) = lemma_first_step(g, None, w, n);
            assert(t is None);
            assert(w =~= a);
        }
        if g[None].dom().contains(None) && matched(g[None][None], w) {
            lemma_step_out(g, None, w);
        }
    }
    assert forall|w: Seq<u8>| leads_through(g, w) <==> (over(w, alphabet) && accepts(d, w)) by {
        lemma_eliminate_all_keeps_words(g0, order, w);
        lemma_initial_words(d, alphabet, w);
    }
    if g[None].dom().contains(None) {
        let e = g[None][None];
        assert(regex_of(d, alphabet) == Some(written(e)));
        assert forall|w: Seq<u8>| matched(e, w) <==> over(w, alphabet) && accepts(d, w) by {
            assert(leads_through(g, w) <==> matched(e, w));
        }
    } else {
        assert(regex_of(d, alphabet) is None);
        assert forall|w: Seq<u8>| over(w, alphabet) implies !accepts(d, w) by {
            assert(!leads_through(g, w));
        }
    }
}

} // verus!
