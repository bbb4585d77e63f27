//! Shortest paths.
//!
//! The search keeps, for every node it has come upon, the best walk to it so
//! far. It repeatedly closes the open node whose walk, together with the
//! straight-line distance left to go, is estimated shortest, and looks from
//! there at the neighbours.

use vstd::multiset::Multiset;
use vstd::prelude::*;

use super::graph::GraphView;
use super::graph::ViableGraph;
use crate::arith;
use crate::arith::Arith;
use crate::arith::Op;
use crate::order;
use crate::vectors;
use crate::vectors::rows;

verus! {

/// `p` goes from node to node along edges.
pub open spec fn walk(g: GraphView, p: Seq<int>) -> bool
    decreases p.len(),
{
    if p.len() <= 1 {
        p.len() == 1 && 0 <= p[0] < g.n()
    } else {
        walk(g, p.drop_last()) && g.edge(p[p.len() - 2], p.last())
    }
}

/// `p` is a walk from `s` to `t`.
pub open spec fn route(g: GraphView, p: Seq<int>, s: int, t: int) -> bool {
    walk(g, p) && p[0] == s && p.last() == t
}

/// Some walk leads from `s` to `t`.
pub open spec fn reachable(g: GraphView, s: int, t: int) -> bool {
    exists|p: Seq<int>| #[trigger] route(g, p, s, t)
}

/// The length of the edge from `a` to `b`.
pub open spec fn edge_length(ar: Arith, g: GraphView, a: int, b: int) -> u32 {
    vectors::distance(ar, g.coords[a], g.coords[b])
}

/// The length of a walk: its edges, added from the first on.
pub open spec fn walk_length(ar: Arith, g: GraphView, p: Seq<int>) -> u32
    decreases p.len(),
{
    if p.len() <= 1 {
        order::ZERO
    } else {
        ar(
            Op::Add,
            walk_length(ar, g, p.drop_last()),
            edge_length(ar, g, p[p.len() - 2], p.last()),
            0,
        )
    }
}

/// The length of a walk and the straight line from its end to `d`.
pub open spec fn estimate(ar: Arith, g: GraphView, p: Seq<int>, d: int) -> u32 {
    ar(Op::Add, walk_length(ar, g, p), edge_length(ar, g, p.last(), d), 0)
}

/// `p` is a walk from `s` that visits no node twice.
pub open spec fn simple(g: GraphView, p: Seq<int>, s: int) -> bool {
    walk(g, p) && p[0] == s && p.no_duplicates()
}

/// Every walk from `s` that visits no node twice has a length below infinity.
pub open spec fn finite_lengths(ar: Arith, g: GraphView, s: int) -> bool {
    forall|p: Seq<int>|
        simple(g, p, s) ==> order::lt(#[trigger] walk_length(ar, g, p), order::INFINITY)
}

/// On walks from `s` that visit no node twice the arithmetic rounds nothing
/// that matters: going on never lowers an estimate, of two walks to one node
/// the shorter has the lower estimate, and it stays the shorter when both go
/// on along one edge.
pub open spec fn exact_lengths(ar: Arith, g: GraphView, s: int, d: int) -> bool {
    &&& finite_lengths(ar, g, s)
    &&& forall|p: Seq<int>|
        #![trigger estimate(ar, g, p, d)]
        simple(g, p, s) && p.len() > 1 ==> order::position(estimate(ar, g, p.drop_last(), d))
            <= order::position(estimate(ar, g, p, d))
    &&& forall|p: Seq<int>, q: Seq<int>|
        #![trigger estimate(ar, g, p, d), estimate(ar, g, q, d)]
        simple(g, p, s) && simple(g, q, s) && p.last() == q.last() ==> (order::le(
            walk_length(ar, g, p),
            walk_length(ar, g, q),
        ) <==> order::position(estimate(ar, g, p, d)) <= order::position(estimate(ar, g, q, d)))
    &&& forall|p: Seq<int>, q: Seq<int>, v: int|
        #![trigger simple(g, p.push(v), s), simple(g, q.push(v), s)]
        simple(g, p.push(v), s) && p.len() > 0 && simple(g, q.push(v), s) && q.len() > 0
            && p.last() == q.last() && order::le(walk_length(ar, g, p), walk_length(ar, g, q))
            ==> order::le(walk_length(ar, g, p.push(v)), walk_length(ar, g, q.push(v)))
}

/// No walk with the same ends that visits no node twice is shorter than `p`.
pub open spec fn shortest(ar: Arith, g: GraphView, p: Seq<int>) -> bool {
    forall|q: Seq<int>|
        #[trigger] route(g, q, p[0], p.last()) && q.no_duplicates() ==> order::le(
            walk_length(ar, g, p),
            walk_length(ar, g, q),
        )
}

/// The records along `p`.
pub open spec fn visited(g: GraphView, p: Seq<int>) -> Seq<u64> {
    p.map_values(|a: int| g.ids[a])
}

/// `ids` lists the records along a walk from `s` to `t` that visits no node
/// twice, and that is shortest if the arithmetic is exact.
pub open spec fn leads(ar: Arith, g: GraphView, s: int, t: int, ids: Seq<u64>, p: Seq<int>) -> bool {
    &&& route(g, p, s, t)
    &&& p.no_duplicates()
    &&& ids == visited(g, p)
    &&& exact_lengths(ar, g, s, t) ==> shortest(ar, g, p)
}

/// `ids` lists the records along such a walk.
pub open spec fn path(ar: Arith, g: GraphView, s: int, t: int, ids: Seq<u64>) -> bool {
    exists|p: Seq<int>| #[trigger] leads(ar, g, s, t, ids, p)
}

/// What a search knows: the length of the best walk to each node so far, the
/// node before it on that walk, which nodes are closed, and the open entries:
/// nodes under the keys of their estimates.
pub ghost struct Run {
    pub lengths: Seq<u32>,
    pub before: Seq<u32>,
    pub closed: Seq<bool>,
    pub open: Multiset<(u64, u32)>,
}

/// No entry of `open` comes before `e`.
pub open spec fn foremost(open: Multiset<(u64, u32)>, e: (u64, u32)) -> bool {
    &&& open.contains(e)
    &&& forall|x: (u64, u32)| #[trigger]
        open.contains(x) ==> e.0 < x.0 || (e.0 == x.0 && e.1 <= x.1)
}

/// Where a search from `s` to `d` starts.
pub open spec fn started(ar: Arith, g: GraphView, s: int, d: int) -> Run {
    Run {
        lengths: Seq::new(g.n() as nat, |v: int| order::INFINITY).update(s, order::ZERO),
        before: Seq::new(g.n() as nat, |v: int| u32::MAX),
        closed: Seq::new(g.n() as nat, |v: int| false),
        open: Multiset::singleton(
            (order::position_key(estimate(ar, g, seq![s], d)) as u64, s as u32),
        ),
    }
}

/// The search, after it has looked from `cur` at the first `j` neighbours:
/// what is not closed, and nearer by this way, is opened.
pub open spec fn spread(ar: Arith, g: GraphView, d: int, cur: int, run: Run, j: int) -> Run
    decreases j,
{
    if j <= 0 {
        run
    } else {
        let r = spread(ar, g, d, cur, run, j - 1);
        let v = g.adj[cur][j - 1] as int;
        let tentative = ar(Op::Add, r.lengths[cur], edge_length(ar, g, cur, v), 0);
        if r.closed[v] || !order::lt(tentative, r.lengths[v]) {
            r
        } else {
            let f = ar(Op::Add, tentative, edge_length(ar, g, v, d), 0);
            Run {
                lengths: r.lengths.update(v, tentative),
                before: r.before.update(v, cur as u32),
                open: r.open.insert((order::position_key(f) as u64, v as u32)),
                ..r
            }
        }
    }
}

/// The search is over: `d` is closed, or nothing is open.
pub open spec fn over(run: Run, d: int) -> bool {
    run.closed[d] || run.open =~= Multiset::empty()
}

/// The search, after it has taken out the foremost open entry. An entry of a
/// closed node is passed over.
pub open spec fn advanced(ar: Arith, g: GraphView, d: int, run: Run) -> Run {
    if over(run, d) {
        run
    } else {
        let e = choose|e: (u64, u32)| foremost(run.open, e);
        let cur = e.1 as int;
        let rest = Run { open: run.open.remove(e), ..run };
        if run.closed[cur] {
            rest
        } else {
            let r = Run { closed: run.closed.update(cur, true), ..rest };
            if cur == d {
                r
            } else {
                spread(ar, g, d, cur, r, g.adj[cur].len() as int)
            }
        }
    }
}

/// The search after `k` entries.
pub open spec fn searched(ar: Arith, g: GraphView, s: int, d: int, k: int) -> Run
    decreases k,
{
    if k <= 0 {
        started(ar, g, s, d)
    } else {
        advanced(ar, g, d, searched(ar, g, s, d, k - 1))
    }
}

/// `p` goes from `s` to `d` along the nodes that `before` names.
pub open spec fn follows(before: Seq<u32>, p: Seq<int>, s: int, d: int) -> bool {
    &&& p.len() > 0
    &&& p[0] == s
    &&& p.last() == d
    &&& forall|i: int| 0 < i < p.len() ==> #[trigger] p[i] != s && before[p[i]] == p[i - 1]
}

/// The search from `s` to `d` is over after `k` entries with the result `r`:
/// the records along the nodes that lead to `d`, if `d` is closed.
pub open spec fn concludes(
    ar: Arith,
    g: GraphView,
    s: int,
    d: int,
    k: int,
    r: Option<Seq<u64>>,
) -> bool {
    let run = searched(ar, g, s, d, k);
    &&& over(run, d)
    &&& r is Some <==> run.closed[d]
    &&& r is Some ==> exists|p: Seq<int>|
        #[trigger] follows(run.before, p, s, d) && r->0 == visited(g, p)
}

/// `r` is what the search from `s` to `d` finds.
pub open spec fn finds(ar: Arith, g: GraphView, s: int, d: int, r: Option<Seq<u64>>) -> bool {
    exists|k: int| 0 <= k && #[trigger] concludes(ar, g, s, d, k, r)
}

/// A search that is over stays as it is.
proof fn lemma_over_stays(ar: Arith, g: GraphView, s: int, d: int, k: int, m: int)
    requires
        0 <= k <= m,
        over(searched(ar, g, s, d, k), d),
    ensures
        searched(ar, g, s, d, m) == searched(ar, g, s, d, k),
    decreases m,
{
    if k < m {
        lemma_over_stays(ar, g, s, d, k, m - 1);
    }
}

/// There is one way back along `before`.
proof fn lemma_one_way_back(before: Seq<u32>, p: Seq<int>, q: Seq<int>, s: int, d: int)
    requires
        follows(before, p, s, d),
        follows(before, q, s, d),
        p.len() <= q.len(),
    ensures
        p == q,
{
    lemma_same_tail(before, p, q, s, d, p.len() as int);
    if p.len() < q.len() {
        assert(q[q.len() - p.len()] == p[0]);
    }
    assert forall|i: int| 0 <= i < p.len() implies p[i] == q[i] by {
        lemma_same_tail(before, p, q, s, d, p.len() - i);
    }
    assert(p =~= q);
}

proof fn lemma_same_tail(before: Seq<u32>, p: Seq<int>, q: Seq<int>, s: int, d: int, n: int)
    requires
        follows(before, p, s, d),
        follows(before, q, s, d),
        p.len() <= q.len(),
        0 < n <= p.len(),
    ensures
        p[p.len() - n] == q[q.len() - n],
    decreases n,
{
    if n > 1 {
        lemma_same_tail(before, p, q, s, d, n - 1);
        let x = p[p.len() - n + 1];
        let y = q[q.len() - n + 1];
        assert(before[x] == p[p.len() - n]);
        assert(before[y] == q[q.len() - n]);
    }
}

/// A search finds one result.
pub proof fn searches_are_determined(
    ar: Arith,
    g: GraphView,
    s: int,
    d: int,
    a: Option<Seq<u64>>,
    b: Option<Seq<u64>>,
)
    requires
        finds(ar, g, s, d, a),
        finds(ar, g, s, d, b),
    ensures
        a == b,
{
    let k = choose|k: int| 0 <= k && #[trigger] concludes(ar, g, s, d, k, a);
    let m = choose|m: int| 0 <= m && #[trigger] concludes(ar, g, s, d, m, b);
    if k <= m {
        lemma_over_stays(ar, g, s, d, k, m);
    } else {
        lemma_over_stays(ar, g, s, d, m, k);
    }
    let run = searched(ar, g, s, d, k);
    if a is Some {
        let p = choose|p: Seq<int>|
            #[trigger] follows(run.before, p, s, d) && a->0 == visited(g, p);
        let q = choose|q: Seq<int>|
            #[trigger] follows(run.before, q, s, d) && b->0 == visited(g, q);
        if p.len() <= q.len() {
            lemma_one_way_back(run.before, p, q, s, d);
        } else {
            lemma_one_way_back(run.before, q, p, s, d);
        }
    }
}

proof fn lemma_push(ar: Arith, g: GraphView, p: Seq<int>, v: int)
    requires
        walk(g, p),
    ensures
        walk(g, p.push(v)) <==> g.edge(p.last(), v),
        walk_length(ar, g, p.push(v)) == ar(
            Op::Add,
            walk_length(ar, g, p),
            edge_length(ar, g, p.last(), v),
            0,
        ),
        p.push(v)[0] == p[0],
        p.push(v).last() == v,
        p.push(v).drop_last() == p,
{
    assert(p.push(v).drop_last() =~= p);
}

proof fn lemma_walk_nodes(g: GraphView, p: Seq<int>)
    requires
        walk(g, p),
    ensures
        forall|i: int| 0 <= i < p.len() ==> 0 <= #[trigger] p[i] < g.n(),
    decreases p.len(),
{
    if p.len() > 1 {
        lemma_walk_nodes(g, p.drop_last());
        assert forall|i: int| 0 <= i < p.len() implies 0 <= #[trigger] p[i] < g.n() by {
            if i < p.len() - 1 {
                assert(p[i] == p.drop_last()[i]);
            }
        }
    }
}

/// The beginning of a walk is a walk, and so is each step on from it.
proof fn lemma_walk_prefix(g: GraphView, p: Seq<int>, j: int)
    requires
        walk(g, p),
        1 <= j <= p.len(),
    ensures
        walk(g, p.take(j)),
        p.take(j)[0] == p[0],
        j < p.len() ==> g.edge(p[j - 1], p[j]) && p.take(j + 1) == p.take(j).push(p[j]),
    decreases p.len() - j,
{
    if j == p.len() {
        assert(p.take(j) =~= p);
    } else {
        lemma_walk_prefix(g, p, j + 1);
        assert(p.take(j + 1) =~= p.take(j).push(p[j]));
        assert(p.take(j + 1).drop_last() =~= p.take(j));
    }
}

proof fn lemma_simple_prefix(g: GraphView, p: Seq<int>, s: int, j: int)
    requires
        simple(g, p, s),
        1 <= j <= p.len(),
    ensures
        simple(g, p.take(j), s),
{
    lemma_walk_prefix(g, p, j);
    let q = p.take(j);
    assert forall|x: int, y: int| 0 <= x < q.len() && 0 <= y < q.len() && x != y implies q[x]
        != q[y] by {
        assert(p[x] != p[y]);
    }
}

/// A walk without repetition that goes on to a new node.
proof fn lemma_simple_push(g: GraphView, p: Seq<int>, s: int, v: int)
    requires
        simple(g, p, s),
        g.edge(p.last(), v),
        !p.contains(v),
    ensures
        simple(g, p.push(v), s),
{
    let q = p.push(v);
    assert(q.drop_last() =~= p);
    assert forall|x: int, y: int| 0 <= x < q.len() && 0 <= y < q.len() && x != y implies q[x]
        != q[y] by {
        if x < p.len() && y < p.len() {
            assert(p[x] != p[y]);
        } else if x < p.len() {
            assert(p.contains(p[x]));
        } else {
            assert(p.contains(p[y]));
        }
    }
}

/// Going on never lowers an estimate.
proof fn lemma_estimate_rises(ar: Arith, g: GraphView, s: int, d: int, p: Seq<int>, j: int)
    requires
        exact_lengths(ar, g, s, d),
        simple(g, p, s),
        1 <= j <= p.len(),
    ensures
        order::position(estimate(ar, g, p.take(j), d)) <= order::position(estimate(ar, g, p, d)),
    decreases p.len() - j,
{
    if j == p.len() {
        assert(p.take(j) =~= p);
    } else {
        lemma_estimate_rises(ar, g, s, d, p, j + 1);
        lemma_walk_prefix(g, p, j + 1);
        assert(p.take(j + 1).drop_last() =~= p.take(j));
        lemma_simple_prefix(g, p, s, j + 1);
        assert(estimate(ar, g, p.take(j + 1), d) == estimate(ar, g, p.take(j + 1), d));
    }
}

/// The state of a search: the length of the best walk to each node, the node
/// before it on that walk, which nodes are closed, the open nodes under their
/// estimates, and the walks themselves.
#[verifier::ext_equal]
ghost struct Search {
    lengths: Seq<u32>,
    before: Seq<u32>,
    closed: Seq<bool>,
    open: Seq<(u64, u32)>,
    walks: Seq<Seq<int>>,
}

impl Search {
    /// The search has come upon `v`.
    spec fn seen(self, v: int) -> bool {
        order::lt(self.lengths[v], order::INFINITY)
    }

    spec fn sized(self, g: GraphView) -> bool {
        &&& self.lengths.len() == g.n()
        &&& self.before.len() == g.n()
        &&& self.closed.len() == g.n()
        &&& self.walks.len() == g.n()
    }

    /// The walk to `v` is one, without repetition, and its nodes before `v`
    /// are closed.
    spec fn tracked_walk(self, ar: Arith, g: GraphView, s: int, v: int) -> bool {
        let p = self.walks[v];
        &&& route(g, p, s, v)
        &&& walk_length(ar, g, p) == self.lengths[v]
        &&& p.no_duplicates()
        &&& forall|i: int| 0 <= i < p.len() - 1 ==> self.closed[#[trigger] p[i]]
        &&& v == s ==> p == seq![s]
        &&& v != s ==> {
            let u = self.before[v] as int;
            &&& 0 <= u < g.n()
            &&& self.closed[u]
            &&& self.seen(u)
            &&& p == self.walks[u].push(v)
        }
    }

    spec fn walks_hold(self, ar: Arith, g: GraphView, s: int) -> bool {
        &&& forall|v: int|
            0 <= v < g.n() && self.seen(v) ==> #[trigger] self.tracked_walk(ar, g, s, v)
        &&& forall|v: int| 0 <= v < g.n() && #[trigger] self.closed[v] ==> self.seen(v)
        &&& forall|v: int|
            0 <= v < g.n() && !#[trigger] self.seen(v) ==> self.lengths[v] == order::INFINITY
        &&& self.seen(s)
    }

    /// The entry of `v` among the open nodes.
    spec fn entry(self, ar: Arith, g: GraphView, d: int, v: int) -> (u64, u32) {
        (order::position_key(estimate(ar, g, self.walks[v], d)) as u64, v as u32)
    }

    spec fn open_holds(self, ar: Arith, g: GraphView, d: int) -> bool {
        &&& forall|i: int|
            0 <= i < self.open.len() ==> (#[trigger] self.open[i]).1 < g.n() && self.seen(
                self.open[i].1 as int,
            )
        &&& forall|v: int|
            0 <= v < g.n() && #[trigger] self.seen(v) && !self.closed[v] ==> self.open.contains(
                self.entry(ar, g, d, v),
            )
    }

    /// The neighbours of closed nodes have been looked at; of `cur`, the
    /// first `j`.
    spec fn looked(self, g: GraphView, d: int, cur: int, j: int) -> bool {
        forall|x: int, i: int|
            #![trigger g.adj[x][i]]
            0 <= x < g.n() && self.closed[x] && x != d && 0 <= i < g.adj[x].len() && (x != cur || i
                < j) ==> self.seen(g.adj[x][i] as int)
    }

    /// Closed nodes have their shortest walk, and what was looked at is no
    /// further away than by way of the closed node.
    spec fn best(self, ar: Arith, g: GraphView, s: int, d: int, cur: int, j: int) -> bool {
        &&& forall|x: int, p: Seq<int>|
            #![trigger self.closed[x], route(g, p, s, x)]
            0 <= x < g.n() && self.closed[x] && route(g, p, s, x) && p.no_duplicates()
                ==> order::le(self.lengths[x], walk_length(ar, g, p))
        &&& forall|x: int, i: int|
            #![trigger g.adj[x][i]]
            0 <= x < g.n() && self.closed[x] && x != d && 0 <= i < g.adj[x].len() && (x != cur || i
                < j) && !self.walks[x].contains(g.adj[x][i] as int) ==> order::le(
                self.lengths[g.adj[x][i] as int],
                walk_length(ar, g, self.walks[x].push(g.adj[x][i] as int)),
            )
        &&& forall|i: int|
            0 <= i < self.open.len() && !self.closed[(#[trigger] self.open[i]).1 as int]
                ==> self.open[i].0 >= self.entry(ar, g, d, self.open[i].1 as int).0
    }

    spec fn holds(self, ar: Arith, g: GraphView, s: int, d: int, cur: int, j: int) -> bool {
        &&& self.sized(g)
        &&& self.walks_hold(ar, g, s)
        &&& self.open_holds(ar, g, d)
        &&& finite_lengths(ar, g, s) ==> self.looked(g, d, cur, j)
        &&& exact_lengths(ar, g, s, d) ==> self.best(ar, g, s, d, cur, j)
    }
}

/// Taking one open entry out.
spec fn without(open: Seq<(u64, u32)>, m: int) -> Seq<(u64, u32)> {
    open.update(m, open.last()).drop_last()
}

proof fn lemma_without(open: Seq<(u64, u32)>, m: int, e: (u64, u32))
    requires
        0 <= m < open.len(),
    ensures
        open.contains(e) && e != open[m] ==> without(open, m).contains(e),
        forall|i: int|
            0 <= i < without(open, m).len() ==> open.contains(#[trigger] without(open, m)[i]),
{
    let w = without(open, m);
    if open.contains(e) && e != open[m] {
        let i = choose|i: int| 0 <= i < open.len() && open[i] == e;
        if i == open.len() - 1 {
            assert(w[m] == e);
        } else {
            assert(w[i] == e);
        }
    }
    assert forall|i: int| 0 <= i < w.len() implies open.contains(#[trigger] w[i]) by {
        if i == m {
            assert(w[i] == open[open.len() - 1]);
        } else {
            assert(w[i] == open[i]);
        }
    }
}

/// What a search with these parts knows.
spec fn knowing(
    lengths: Seq<u32>,
    before: Seq<u32>,
    closed: Seq<bool>,
    open: Seq<(u64, u32)>,
) -> Run {
    Run { lengths, before, closed, open: open.to_multiset() }
}

/// The entry that is taken out is the foremost, and the others stay.
proof fn lemma_foremost(open: Seq<(u64, u32)>, m: int)
    requires
        0 <= m < open.len(),
        forall|i: int| 0 <= i < open.len() ==> open[m].0 <= (#[trigger] open[i]).0,
        forall|i: int|
            0 <= i < open.len() && (#[trigger] open[i]).0 == open[m].0 ==> open[m].1 <= open[i].1,
    ensures
        foremost(open.to_multiset(), open[m]),
        open[m] == (choose|e: (u64, u32)| foremost(open.to_multiset(), e)),
        without(open, m).to_multiset() == open.to_multiset().remove(open[m]),
        open.to_multiset() != Multiset::<(u64, u32)>::empty(),
{
    broadcast use vstd::seq_lib::group_to_multiset_ensures;

    let all = open.to_multiset();
    assert(open.contains(open[m]));
    assert(all.count(open[m]) > 0);
    assert forall|x: (u64, u32)| #[trigger] all.contains(x) implies open[m].0 < x.0 || (open[m].0
        == x.0 && open[m].1 <= x.1) by {
        assert(open.contains(x));
        let i = choose|i: int| 0 <= i < open.len() && open[i] == x;
        assert(open[m].0 <= open[i].0);
    }
    assert(foremost(all, open[m]));
    let e = choose|e: (u64, u32)| foremost(all, e);
    assert(foremost(all, e));
    assert(all.contains(open[m]));
    assert(all.contains(e));
    let last = open.last();
    let t = open.drop_last();
    assert(open =~= t.push(last));
    if m == open.len() - 1 {
        assert(without(open, m) =~= t);
        assert(all.remove(last) =~= t.to_multiset());
    } else {
        assert(without(open, m) =~= t.remove(m).insert(m, last));
        vstd::seq_lib::to_multiset_insert(t.remove(m), m, last);
        vstd::seq_lib::to_multiset_remove(t, m);
        assert(t[m] == open[m]);
        assert(t.contains(t[m]));
        assert(all.remove(open[m]) =~= t.to_multiset().remove(t[m]).insert(last));
    }
}

/// The walk to a node follows the nodes before it.
proof fn lemma_walk_follows(st: Search, ar: Arith, g: GraphView, s: int, v: int)
    requires
        st.sized(g),
        st.walks_hold(ar, g, s),
        0 <= v < g.n(),
        st.seen(v),
    ensures
        follows(st.before, st.walks[v], s, v),
    decreases st.walks[v].len(),
{
    assert(st.tracked_walk(ar, g, s, v));
    let p = st.walks[v];
    if v != s {
        let u = st.before[v] as int;
        assert(st.tracked_walk(ar, g, s, u));
        lemma_walk_follows(st, ar, g, s, u);
        let q = st.walks[u];
        assert forall|i: int| 0 < i < p.len() implies #[trigger] p[i] != s && st.before[p[i]]
            == p[i - 1] by {
            assert(p[0] == s);
            if i < q.len() {
                assert(p[i] == q[i]);
                assert(p[i - 1] == q[i - 1]);
            } else {
                assert(p[i] == v);
                assert(p[i - 1] == q.last());
            }
        }
    }
}

/// Dropping an entry of a closed node.
#[verifier::rlimit(40)]
proof fn lemma_drop(st: Search, ar: Arith, g: GraphView, s: int, d: int, m: int)
    requires
        g.wf(),
        st.holds(ar, g, s, d, -1, 0),
        0 <= m < st.open.len(),
        st.closed[st.open[m].1 as int],
    ensures
        (Search { open: without(st.open, m), ..st }).holds(ar, g, s, d, -1, 0),
{
    let t = Search { open: without(st.open, m), ..st };
    assert forall|i: int| 0 <= i < t.open.len() implies (#[trigger] t.open[i]).1 < g.n() && t.seen(
        t.open[i].1 as int,
    ) by {
        lemma_without(st.open, m, t.open[i]);
        let k = choose|k: int| 0 <= k < st.open.len() && st.open[k] == t.open[i];
        assert(st.seen(st.open[k].1 as int));
    }
    assert forall|v: int|
        0 <= v < g.n() && #[trigger] t.seen(v) && !t.closed[v] implies t.open.contains(
        t.entry(ar, g, d, v),
    ) by {
        assert(st.seen(v));
        lemma_without(st.open, m, st.entry(ar, g, d, v));
    }
    assert forall|v: int| 0 <= v < g.n() && #[trigger] t.seen(v) implies t.tracked_walk(
        ar,
        g,
        s,
        v,
    ) by {
        assert(st.seen(v));
        assert(st.tracked_walk(ar, g, s, v));
        if v != s {
            assert(st.seen(st.before[v] as int));
            assert(t.seen(st.before[v] as int));
        }
    }
    assert forall|v: int| 0 <= v < g.n() && #[trigger] t.closed[v] implies t.seen(v) by {
        assert(st.closed[v]);
        assert(st.seen(v));
    }
    assert forall|v: int| 0 <= v < g.n() && !#[trigger] t.seen(v) implies t.lengths[v]
        == order::INFINITY by {
        assert(!st.seen(v));
    }
    assert(st.seen(s) && t.seen(s));
    if finite_lengths(ar, g, s) {
        assert forall|x: int, i: int|
            #![trigger g.adj[x][i]]
            0 <= x < g.n() && t.closed[x] && x != d && 0 <= i < g.adj[x].len() implies t.seen(
            g.adj[x][i] as int,
        ) by {
            assert(st.seen(g.adj[x][i] as int));
        }
    }
    if exact_lengths(ar, g, s, d) {
        assert forall|i: int|
            0 <= i < t.open.len() && !t.closed[(#[trigger] t.open[i]).1 as int] implies t.open[i].0
            >= t.entry(ar, g, d, t.open[i].1 as int).0 by {
            lemma_without(st.open, m, t.open[i]);
            let k = choose|k: int| 0 <= k < st.open.len() && st.open[k] == t.open[i];
            assert(st.open[k].0 >= st.entry(ar, g, d, st.open[k].1 as int).0);
        }
        assert(st.best(ar, g, s, d, -1, 0));
        assert forall|x: int, p: Seq<int>|
            #![trigger t.closed[x], route(g, p, s, x)]
            0 <= x < g.n() && t.closed[x] && route(g, p, s, x) && p.no_duplicates() implies order::le(
            t.lengths[x],
            walk_length(ar, g, p),
        ) by {
            assert(st.closed[x]);
        }
    }
}

/// The walk to a closed node holds closed nodes only.
proof fn lemma_walk_closed(st: Search, ar: Arith, g: GraphView, s: int, x: int, y: int)
    requires
        st.tracked_walk(ar, g, s, x),
        st.closed[x],
        !st.closed[y],
    ensures
        !st.walks[x].contains(y),
{
    let p = st.walks[x];
    if p.contains(y) {
        let i = choose|i: int| 0 <= i < p.len() && p[i] == y;
        if i < p.len() - 1 {
            assert(st.closed[p[i]]);
        } else {
            assert(p[i] == p.last());
        }
    }
}

/// The open node with the lowest estimate has its shortest walk.
proof fn lemma_lowest_is_best(
    st: Search,
    ar: Arith,
    g: GraphView,
    s: int,
    d: int,
    m: int,
    p: Seq<int>,
)
    requires
        g.wf(),
        st.holds(ar, g, s, d, -1, 0),
        exact_lengths(ar, g, s, d),
        0 <= d < g.n(),
        0 <= m < st.open.len(),
        !st.closed[st.open[m].1 as int],
        !st.closed[d],
        forall|i: int| 0 <= i < st.open.len() ==> st.open[m].0 <= (#[trigger] st.open[i]).0,
        route(g, p, s, st.open[m].1 as int),
        p.no_duplicates(),
    ensures
        order::le(st.lengths[st.open[m].1 as int], walk_length(ar, g, p)),
{
    let v = st.open[m].1 as int;
    assert(st.seen(v));
    lemma_walk_nodes(g, p);
    let j = lemma_first_open(st, g, p, p.len() as int);
    let y = p[j];
    lemma_walk_prefix(g, p, j + 1);
    let q = p.take(j + 1);
    lemma_simple_prefix(g, p, s, j + 1);
    assert(q.last() == y);
    if j == 0 {
        assert(y == s);
        assert(st.seen(s));
        assert(st.tracked_walk(ar, g, s, s));
        assert(q =~= seq![s]);
        assert(st.walks[y] == q);
    } else {
        let x = p[j - 1];
        assert(st.closed[x]);
        assert(st.seen(x));
        assert(st.tracked_walk(ar, g, s, x));
        lemma_walk_prefix(g, p, j);
        let before = p.take(j);
        lemma_simple_prefix(g, p, s, j);
        assert(before.last() == x);
        assert(route(g, before, s, x));
        assert(order::le(st.lengths[x], walk_length(ar, g, before)));
        assert(g.edge(x, y));
        assert(g.adj[x].contains(y as u32));
        let i = choose|i: int| 0 <= i < g.adj[x].len() && g.adj[x][i] == y as u32;
        assert(g.adj[x][i] as int == y);
        assert(st.seen(y));
        lemma_walk_closed(st, ar, g, s, x, y);
        assert(order::le(st.lengths[y], walk_length(ar, g, st.walks[x].push(y))));
        lemma_simple_push(g, st.walks[x], s, y);
        lemma_push(ar, g, st.walks[x], y);
        lemma_push(ar, g, before, y);
        assert(before.push(y) == q);
        assert(simple(g, st.walks[x].push(y), s));
        assert(simple(g, before.push(y), s));
        assert(order::le(
            walk_length(ar, g, st.walks[x].push(y)),
            walk_length(ar, g, before.push(y)),
        ));
        assert(order::le(st.lengths[y], walk_length(ar, g, q)));
    }
    assert(st.seen(y));
    assert(st.tracked_walk(ar, g, s, y));
    assert(st.tracked_walk(ar, g, s, v));
    assert(order::lt(walk_length(ar, g, q), order::INFINITY));
    assert(order::le(walk_length(ar, g, st.walks[y]), walk_length(ar, g, q)));
    assert(order::position(estimate(ar, g, st.walks[y], d)) <= order::position(
        estimate(ar, g, q, d),
    ));
    lemma_estimate_rises(ar, g, s, d, p, j + 1);
    let e = st.entry(ar, g, d, y);
    assert(st.open.contains(e));
    let k = choose|k: int| 0 <= k < st.open.len() && st.open[k] == e;
    assert(st.open[m].0 <= st.open[k].0);
    assert(st.open[m].0 >= st.entry(ar, g, d, v).0);
    order::position_is_total(estimate(ar, g, st.walks[y], d), 0);
    order::position_is_total(estimate(ar, g, st.walks[v], d), 0);
    assert(order::position(estimate(ar, g, st.walks[v], d)) <= order::position(
        estimate(ar, g, p, d),
    ));
}

/// The first node of `p` that is not closed.
proof fn lemma_first_open(st: Search, g: GraphView, p: Seq<int>, n: int) -> (j: int)
    requires
        0 < n <= p.len(),
        !st.closed[p[n - 1]],
    ensures
        0 <= j < n,
        !st.closed[p[j]],
        forall|i: int| 0 <= i < j ==> st.closed[#[trigger] p[i]],
    decreases n,
{
    if exists|i: int| 0 <= i < n - 1 && !st.closed[#[trigger] p[i]] {
        let i = choose|i: int| 0 <= i < n - 1 && !st.closed[#[trigger] p[i]];
        lemma_first_open(st, g, p, i + 1)
    } else {
        n - 1
    }
}

/// Closing the open node with the lowest estimate.
proof fn lemma_close(st: Search, ar: Arith, g: GraphView, s: int, d: int, m: int)
    requires
        g.wf(),
        st.holds(ar, g, s, d, -1, 0),
        0 <= d < g.n(),
        0 <= m < st.open.len(),
        !st.closed[st.open[m].1 as int],
        !st.closed[d],
        forall|i: int| 0 <= i < st.open.len() ==> st.open[m].0 <= (#[trigger] st.open[i]).0,
    ensures
        (Search {
            open: without(st.open, m),
            closed: st.closed.update(st.open[m].1 as int, true),
            ..st
        }).holds(ar, g, s, d, st.open[m].1 as int, 0),
{
    let v = st.open[m].1 as int;
    let t = Search { open: without(st.open, m), closed: st.closed.update(v, true), ..st };
    assert(st.seen(v));
    assert forall|x: int| 0 <= x < g.n() && #[trigger] t.seen(x) implies t.tracked_walk(
        ar,
        g,
        s,
        x,
    ) by {
        assert(st.seen(x));
        assert(st.tracked_walk(ar, g, s, x));
        lemma_walk_nodes(g, st.walks[x]);
        if x != s {
            assert(st.seen(st.before[x] as int));
            assert(t.seen(st.before[x] as int));
        }
    }
    assert forall|x: int| 0 <= x < g.n() && #[trigger] t.closed[x] implies t.seen(x) by {
        if x != v {
            assert(st.closed[x]);
            assert(st.seen(x));
        }
    }
    assert forall|x: int| 0 <= x < g.n() && !#[trigger] t.seen(x) implies t.lengths[x]
        == order::INFINITY by {
        assert(!st.seen(x));
    }
    assert(st.seen(s) && t.seen(s));
    assert forall|i: int| 0 <= i < t.open.len() implies (#[trigger] t.open[i]).1 < g.n() && t.seen(
        t.open[i].1 as int,
    ) by {
        lemma_without(st.open, m, t.open[i]);
        let k = choose|k: int| 0 <= k < st.open.len() && st.open[k] == t.open[i];
        assert(st.seen(st.open[k].1 as int));
    }
    assert forall|x: int|
        0 <= x < g.n() && #[trigger] t.seen(x) && !t.closed[x] implies t.open.contains(
        t.entry(ar, g, d, x),
    ) by {
        assert(st.seen(x));
        assert(!st.closed[x]);
        assert(x != v);
        lemma_without(st.open, m, st.entry(ar, g, d, x));
        assert(st.entry(ar, g, d, x) == t.entry(ar, g, d, x));
    }
    if finite_lengths(ar, g, s) {
        assert forall|x: int, i: int|
            #![trigger g.adj[x][i]]
            0 <= x < g.n() && t.closed[x] && x != d && 0 <= i < g.adj[x].len() && (x != v || i
                < 0) implies t.seen(g.adj[x][i] as int) by {
            assert(st.closed[x]);
            assert(st.seen(g.adj[x][i] as int));
        }
    }
    if exact_lengths(ar, g, s, d) {
        assert forall|x: int, p: Seq<int>|
            #![trigger t.closed[x], route(g, p, s, x)]
            0 <= x < g.n() && t.closed[x] && route(g, p, s, x) && p.no_duplicates() implies order::le(
            t.lengths[x],
            walk_length(ar, g, p),
        ) by {
            if x == v {
                lemma_lowest_is_best(st, ar, g, s, d, m, p);
            } else {
                assert(st.closed[x]);
            }
        }
        assert forall|x: int, i: int|
            #![trigger g.adj[x][i]]
            0 <= x < g.n() && t.closed[x] && x != d && 0 <= i < g.adj[x].len() && (x != v || i
                < 0) && !t.walks[x].contains(g.adj[x][i] as int) implies order::le(
            t.lengths[g.adj[x][i] as int],
            walk_length(ar, g, t.walks[x].push(g.adj[x][i] as int)),
        ) by {
            assert(st.closed[x]);
        }
        assert forall|i: int|
            0 <= i < t.open.len() && !t.closed[(#[trigger] t.open[i]).1 as int] implies t.open[i].0
            >= t.entry(ar, g, d, t.open[i].1 as int).0 by {
            lemma_without(st.open, m, t.open[i]);
            let k = choose|k: int| 0 <= k < st.open.len() && st.open[k] == t.open[i];
            assert(st.open[k].0 >= st.entry(ar, g, d, st.open[k].1 as int).0);
        }
    }
}

/// Looking at a neighbour to which no shorter walk leads this way.
proof fn lemma_pass(
    st: Search,
    ar: Arith,
    g: GraphView,
    s: int,
    d: int,
    cur: int,
    j: int,
)
    requires
        g.wf(),
        st.holds(ar, g, s, d, cur, j),
        0 <= cur < g.n(),
        st.closed[cur],
        cur != d,
        0 <= j < g.adj[cur].len(),
        st.closed[g.adj[cur][j] as int] || !order::lt(
            walk_length(ar, g, st.walks[cur].push(g.adj[cur][j] as int)),
            st.lengths[g.adj[cur][j] as int],
        ),
    ensures
        st.holds(ar, g, s, d, cur, j + 1),
{
    let y = g.adj[cur][j] as int;
    assert(0 <= y < g.n());
    assert(st.seen(cur));
    assert(st.tracked_walk(ar, g, s, cur));
    let p = st.walks[cur];
    lemma_push(ar, g, p, y);
    assert(g.edge(cur, y)) by {
        assert(g.adj[cur].contains(y as u32));
    }
    if !st.closed[y] {
        lemma_walk_closed(st, ar, g, s, cur, y);
    }
    if !p.contains(y) {
        lemma_simple_push(g, p, s, y);
    }
    if finite_lengths(ar, g, s) {
        assert(st.seen(y)) by {
            if !st.closed[y] && !st.seen(y) {
                assert(order::lt(walk_length(ar, g, p.push(y)), order::INFINITY));
                assert(st.lengths[y] == order::INFINITY);
            }
        }
        assert forall|x: int, i: int|
            #![trigger g.adj[x][i]]
            0 <= x < g.n() && st.closed[x] && x != d && 0 <= i < g.adj[x].len() && (x != cur || i
                < j + 1) implies st.seen(g.adj[x][i] as int) by {
            if x == cur && i == j {
            } else {
                assert(x != cur || i < j);
            }
        }
    }
    if exact_lengths(ar, g, s, d) {
        assert(route(g, p.push(y), s, y));
        if !p.contains(y) {
            assert(order::lt(walk_length(ar, g, p.push(y)), order::INFINITY));
            assert(order::le(st.lengths[y], walk_length(ar, g, p.push(y)))) by {
                if st.closed[y] {
                } else {
                    assert(st.seen(y));
                }
            }
        }
        assert forall|x: int, i: int|
            #![trigger g.adj[x][i]]
            0 <= x < g.n() && st.closed[x] && x != d && 0 <= i < g.adj[x].len() && (x != cur || i
                < j + 1) && !st.walks[x].contains(g.adj[x][i] as int) implies order::le(
            st.lengths[g.adj[x][i] as int],
            walk_length(ar, g, st.walks[x].push(g.adj[x][i] as int)),
        ) by {
            if x == cur && i == j {
            } else {
                assert(x != cur || i < j);
            }
        }
    }
}

/// The state after taking a shorter walk to `y` by way of `cur`.
spec fn improved(st: Search, ar: Arith, g: GraphView, d: int, cur: int, y: int) -> Search {
    let p = st.walks[cur].push(y);
    Search {
        lengths: st.lengths.update(y, walk_length(ar, g, p)),
        before: st.before.update(y, cur as u32),
        walks: st.walks.update(y, p),
        open: st.open.push(
            (order::position_key(estimate(ar, g, p, d)) as u64, y as u32),
        ),
        ..st
    }
}

/// Looking at a neighbour to which a shorter walk leads this way.
proof fn lemma_improve(st: Search, ar: Arith, g: GraphView, s: int, d: int, cur: int, j: int)
    requires
        g.wf(),
        st.holds(ar, g, s, d, cur, j),
        0 <= cur < g.n(),
        st.closed[cur],
        st.closed[s],
        cur != d,
        0 <= j < g.adj[cur].len(),
        !st.closed[g.adj[cur][j] as int],
        order::lt(
            walk_length(ar, g, st.walks[cur].push(g.adj[cur][j] as int)),
            st.lengths[g.adj[cur][j] as int],
        ),
    ensures
        improved(st, ar, g, d, cur, g.adj[cur][j] as int).holds(ar, g, s, d, cur, j + 1),
{
    let y = g.adj[cur][j] as int;
    assert(0 <= y < g.n());
    let t = improved(st, ar, g, d, cur, y);
    assert(st.seen(cur));
    assert(st.tracked_walk(ar, g, s, cur));
    let p = st.walks[cur];
    let q = p.push(y);
    lemma_push(ar, g, p, y);
    lemma_walk_nodes(g, p);
    assert(g.edge(cur, y)) by {
        assert(g.adj[cur].contains(y as u32));
    }
    assert(t.seen(y)) by {
        if st.seen(y) {
        } else {
            assert(st.lengths[y] == order::INFINITY);
        }
    }
    assert(y != s);
    assert(y != cur);
    assert forall|x: int| 0 <= x < g.n() && x != y implies (#[trigger] t.seen(x) == st.seen(x)) by {}
    assert(t.tracked_walk(ar, g, s, y)) by {
        assert(route(g, q, s, y));
        assert forall|a: int, b: int| 0 <= a < q.len() && 0 <= b < q.len() && a != b implies q[a]
            != q[b] by {
            if a == p.len() {
                if b == p.len() - 1 {
                    assert(p[b] == p.last());
                } else {
                    assert(st.closed[p[b]]);
                }
            } else if b == p.len() {
                if a == p.len() - 1 {
                    assert(p[a] == p.last());
                } else {
                    assert(st.closed[p[a]]);
                }
            } else {
                assert(p[a] != p[b]);
            }
        }
        assert forall|i: int| 0 <= i < q.len() - 1 implies t.closed[#[trigger] q[i]] by {
            if i < p.len() - 1 {
                assert(st.closed[p[i]]);
            } else {
                assert(q[i] == p.last());
            }
        }
        assert(t.seen(cur));
        assert(t.before[y] == cur as u32);
    }
    assert forall|x: int| 0 <= x < g.n() && #[trigger] t.seen(x) implies t.tracked_walk(
        ar,
        g,
        s,
        x,
    ) by {
        if x != y {
            assert(st.seen(x));
            assert(st.tracked_walk(ar, g, s, x));
            if x != s {
                let u = st.before[x] as int;
                assert(u != y);
                assert(st.seen(u));
                assert(t.seen(u));
            }
        }
    }
    assert forall|x: int| 0 <= x < g.n() && #[trigger] t.closed[x] implies t.seen(x) by {
        assert(st.closed[x]);
        assert(st.seen(x));
        assert(x != y);
    }
    assert forall|x: int| 0 <= x < g.n() && !#[trigger] t.seen(x) implies t.lengths[x]
        == order::INFINITY by {
        assert(x != y);
        assert(!st.seen(x));
    }
    assert(st.seen(s) && t.seen(s));
    let e = t.entry(ar, g, d, y);
    assert(t.open == st.open.push(e));
    assert forall|i: int| 0 <= i < t.open.len() implies (#[trigger] t.open[i]).1 < g.n() && t.seen(
        t.open[i].1 as int,
    ) by {
        if i < st.open.len() {
            assert(st.seen(st.open[i].1 as int));
        }
    }
    assert forall|x: int|
        0 <= x < g.n() && #[trigger] t.seen(x) && !t.closed[x] implies t.open.contains(
        t.entry(ar, g, d, x),
    ) by {
        if x == y {
            assert(t.open[st.open.len() as int] == e);
        } else {
            assert(st.seen(x));
            let f = st.entry(ar, g, d, x);
            assert(st.open.contains(f));
            let k = choose|k: int| 0 <= k < st.open.len() && st.open[k] == f;
            assert(t.open[k] == f);
        }
    }
    if finite_lengths(ar, g, s) {
        assert forall|x: int, i: int|
            #![trigger g.adj[x][i]]
            0 <= x < g.n() && t.closed[x] && x != d && 0 <= i < g.adj[x].len() && (x != cur || i
                < j + 1) implies t.seen(g.adj[x][i] as int) by {
            if g.adj[x][i] as int != y {
                assert(x != cur || i < j);
                assert(st.seen(g.adj[x][i] as int));
            }
        }
    }
    if exact_lengths(ar, g, s, d) {
        assert forall|x: int, r: Seq<int>|
            #![trigger t.closed[x], route(g, r, s, x)]
            0 <= x < g.n() && t.closed[x] && route(g, r, s, x) && r.no_duplicates() implies order::le(
            t.lengths[x],
            walk_length(ar, g, r),
        ) by {
            assert(st.closed[x]);
            assert(x != y);
        }
        assert forall|x: int, i: int|
            #![trigger g.adj[x][i]]
            0 <= x < g.n() && t.closed[x] && x != d && 0 <= i < g.adj[x].len() && (x != cur || i
                < j + 1) && !t.walks[x].contains(g.adj[x][i] as int) implies order::le(
            t.lengths[g.adj[x][i] as int],
            walk_length(ar, g, t.walks[x].push(g.adj[x][i] as int)),
        ) by {
            let z = g.adj[x][i] as int;
            assert(x != y);
            assert(t.walks[x] == st.walks[x]);
            if x == cur && i == j {
                assert(z == y);
                assert(order::lt(walk_length(ar, g, q), order::INFINITY));
            } else {
                assert(x != cur || i < j);
                assert(order::le(st.lengths[z], walk_length(ar, g, st.walks[x].push(z))));
            }
        }
        assert forall|i: int|
            0 <= i < t.open.len() && !t.closed[(#[trigger] t.open[i]).1 as int] implies t.open[i].0
            >= t.entry(ar, g, d, t.open[i].1 as int).0 by {
            if i < st.open.len() {
                let z = st.open[i].1 as int;
                assert(st.open[i].0 >= st.entry(ar, g, d, z).0);
                if z == y {
                    assert(st.seen(y));
                    assert(st.tracked_walk(ar, g, s, y));
                    let o = st.walks[y];
                    assert(walk_length(ar, g, o) == st.lengths[y]);
                    assert(order::le(walk_length(ar, g, q), walk_length(ar, g, o)));
                    assert(order::position(estimate(ar, g, q, d)) <= order::position(
                        estimate(ar, g, o, d),
                    ));
                    order::position_is_total(estimate(ar, g, q, d), 0);
                    order::position_is_total(estimate(ar, g, o, d), 0);
                }
            }
        }
    }
}

/// The number of nodes that are not closed.
spec fn unclosed(closed: Seq<bool>) -> nat
    decreases closed.len(),
{
    if closed.len() == 0 {
        0
    } else {
        unclosed(closed.drop_last()) + if closed.last() {
            0nat
        } else {
            1nat
        }
    }
}

proof fn lemma_unclosed(closed: Seq<bool>, v: int)
    requires
        0 <= v < closed.len(),
        !closed[v],
    ensures
        unclosed(closed.update(v, true)) < unclosed(closed),
    decreases closed.len(),
{
    let after = closed.update(v, true);
    if v == closed.len() - 1 {
        assert(after.drop_last() =~= closed.drop_last());
    } else {
        assert(after.drop_last() =~= closed.drop_last().update(v, true));
        lemma_unclosed(closed.drop_last(), v);
    }
}

/// A search that has nothing left open has closed what can be reached.
proof fn lemma_exhausted(st: Search, ar: Arith, g: GraphView, s: int, d: int, p: Seq<int>)
    requires
        g.wf(),
        st.holds(ar, g, s, d, -1, 0),
        finite_lengths(ar, g, s),
        st.open.len() == 0,
        0 <= d < g.n(),
        !st.closed[d],
        walk(g, p),
        p[0] == s,
    ensures
        st.closed[p.last()],
    decreases p.len(),
{
    if p.len() == 1 {
        assert(st.seen(s));
        assert(st.closed[s]);
    } else {
        let q = p.drop_last();
        lemma_exhausted(st, ar, g, s, d, q);
        let x = q.last();
        let y = p.last();
        assert(g.edge(x, y));
        let i = choose|i: int| 0 <= i < g.adj[x].len() && g.adj[x][i] == y as u32;
        assert(g.adj[x].contains(y as u32));
        assert(g.adj[x][i] as int == y);
        assert(st.seen(y));
        assert(st.closed[y]);
    }
}

/// The open node with the lowest estimate; of equal ones the lowest number.
fn lowest(open: &Vec<(u64, u32)>) -> (m: usize)
    requires
        open@.len() > 0,
    ensures
        m < open@.len(),
        forall|i: int| 0 <= i < open@.len() ==> open@[m as int].0 <= (#[trigger] open@[i]).0,
        forall|i: int|
            0 <= i < open@.len() && (#[trigger] open@[i]).0 == open@[m as int].0
                ==> open@[m as int].1 <= open@[i].1,
{
    let mut m: usize = 0;
    let mut i: usize = 1;
    while i < open.len()
        invariant
            1 <= i <= open@.len(),
            m < i,
            forall|k: int| 0 <= k < i ==> open@[m as int].0 <= (#[trigger] open@[k]).0,
            forall|k: int|
                0 <= k < i && (#[trigger] open@[k]).0 == open@[m as int].0 ==> open@[m as int].1
                    <= open@[k].1,
        decreases open@.len() - i,
    {
        if open[i].0 < open[m].0 || (open[i].0 == open[m].0 && open[i].1 < open[m].1) {
            m = i;
        }
        i += 1;
    }
    m
}

/// Follows the walk back from `d` to `s`.
fn retrace(ids: &Vec<u64>, before: &Vec<u32>, s: u32, d: u32, Ghost(st): Ghost<Search>, Ghost(
    ar,
): Ghost<Arith>, Ghost(g): Ghost<GraphView>) -> (r: Vec<u64>)
    requires
        g.wf(),
        ids@ == g.ids,
        before@ == st.before,
        s < g.n(),
        d < g.n(),
        st.sized(g),
        st.walks_hold(ar, g, s as int),
        st.closed[d as int],
    ensures
        r@ == visited(g, st.walks[d as int]),
{
    let mut back: Vec<u64> = Vec::new();
    let mut cur: u32 = d;
    let ghost whole = st.walks[d as int];
    proof {
        assert(st.seen(d as int));
        assert(st.tracked_walk(ar, g, s as int, d as int));
    }
    while cur != s
        invariant
            g.wf(),
            ids@ == g.ids,
            before@ == st.before,
            s < g.n(),
            cur < g.n(),
            st.sized(g),
            st.walks_hold(ar, g, s as int),
            st.seen(cur as int),
            whole.len() == st.walks[cur as int].len() + back@.len(),
            st.walks[cur as int] == whole.take(st.walks[cur as int].len() as int),
            forall|i: int|
                0 <= i < back@.len() ==> #[trigger] back@[i] == g.ids[whole[whole.len() - 1 - i]],
        decreases st.walks[cur as int].len(),
    {
        proof {
            assert(st.tracked_walk(ar, g, s as int, cur as int));
            let p = st.walks[cur as int];
            let u = st.before[cur as int] as int;
            assert(p == st.walks[u].push(cur as int));
            assert(whole[p.len() - 1] == p[p.len() - 1]);
            assert(st.walks[u] =~= whole.take(st.walks[u].len() as int)) by {
                assert forall|i: int| 0 <= i < st.walks[u].len() implies #[trigger] st.walks[u][i]
                    == whole[i] by {
                    assert(p[i] == whole.take(p.len() as int)[i]);
                }
            }
        }
        back.push(ids[cur as usize]);
        cur = before[cur as usize];
    }
    proof {
        assert(st.tracked_walk(ar, g, s as int, s as int));
        assert(st.walks[s as int].len() == 1);
        assert(whole[0] == whole.take(1)[0]);
    }
    back.push(ids[cur as usize]);
    let n: usize = back.len();
    let mut r: Vec<u64> = Vec::new();
    let mut i: usize = 0;
    while i < n
        invariant
            i <= n,
            n == back@.len(),
            n == whole.len(),
            r@.len() == i,
            forall|k: int|
                0 <= k < n ==> #[trigger] back@[k] == g.ids[whole[whole.len() - 1 - k]],
            forall|k: int| 0 <= k < i ==> #[trigger] r@[k] == g.ids[whole[k]],
        decreases n - i,
    {
        r.push(back[n - 1 - i]);
        i += 1;
    }
    assert(r@ =~= visited(g, whole));
    r
}

impl ViableGraph {
    /// The shortest path from `src` to `dst`, edges weighing their Euclidean
    /// length. `None` if either id is not a node, or if `dst` cannot be
    /// reached from `src`.
    pub fn geodesic<F: Fn(Op, u32, u32, u32) -> u32>(&self, fpu: &F, src: u64, dst: u64) -> (r:
        Option<Vec<u64>>)
        requires
            arith::is_unit(*fpu),
        ensures
            r is Some ==> self@.has(src) && self@.has(dst) && path(
                arith::arith(*fpu),
                self@,
                self@.node(src),
                self@.node(dst),
                r->0@,
            ),
            r is None && self@.has(src) && self@.has(dst) && finite_lengths(
                arith::arith(*fpu),
                self@,
                self@.node(src),
            ) ==> !reachable(self@, self@.node(src), self@.node(dst)),
            self@.has(src) && src == dst ==> r is Some && r->0@ == seq![src],
            self@.has(src) && self@.has(dst) && src != dst ==> finds(
                arith::arith(*fpu),
                self@,
                self@.node(src),
                self@.node(dst),
                if r is Some {
                    Some(r->0@)
                } else {
                    None
                },
            ),
    {
        let ghost ar = arith::arith(*fpu);
        let ghost g = self@;
        let s: u32 = match self.node_of(src) {
            Some(node) => node,
            None => {
                return None;
            },
        };
        let d: u32 = match self.node_of(dst) {
            Some(node) => node,
            None => {
                return None;
            },
        };
        let ids: &Vec<u64> = self.ids();
        if s == d {
            let mut one: Vec<u64> = Vec::new();
            one.push(src);
            proof {
                let p = seq![s as int];
                assert(one@ =~= visited(g, p));
                assert(route(g, p, s as int, d as int));
                assert forall|q: Seq<int>| #[trigger]
                    route(g, q, p[0], p.last()) && q.no_duplicates() implies order::le(
                    walk_length(ar, g, p),
                    walk_length(ar, g, q),
                ) by {
                    assert(q[0] == q[q.len() - 1]);
                    assert(q.len() == 1);
                }
                assert(leads(ar, g, s as int, d as int, one@, p));
                assert(path(ar, g, s as int, d as int, one@));
            }
            return Some(one);
        }
        let n: usize = self.n_nodes();
        let coords: &Vec<Vec<u32>> = self.coords();
        let adjacency: &Vec<Vec<u32>> = self.adjacency();
        assert(rows(coords@).len() == n);
        assert(rows(adjacency@).len() == n);
        let mut lengths: Vec<u32> = vec![order::INFINITY; n];
        let mut before: Vec<u32> = vec![u32::MAX; n];
        let mut closed: Vec<bool> = vec![false; n];
        lengths.set(s as usize, order::ZERO);
        let start: u32 = arith::binary(
            fpu,
            Op::Add,
            order::ZERO,
            vectors::euclidean(fpu, &coords[s as usize], &coords[d as usize]),
        );
        let mut open: Vec<(u64, u32)> = Vec::new();
        open.push((order::key_of_position(start), s));
        let ghost mut walks: Seq<Seq<int>> = Seq::new(n as nat, |i: int| seq![s as int]);
        proof {
            let st = Search {
                lengths: lengths@,
                before: before@,
                closed: closed@,
                open: open@,
                walks,
            };
            assert(rows(coords@)[s as int] == coords@[s as int]@);
            assert(rows(coords@)[d as int] == coords@[d as int]@);
            assert(st.entry(ar, g, d as int, s as int) == open@[0]);
            assert forall|v: int| 0 <= v < g.n() && #[trigger] st.seen(v) implies v == s by {}
            assert(st.seen(s as int));
            assert(st.tracked_walk(ar, g, s as int, s as int));
            assert(st.open[0] == open@[0]);
            assert(st.open.contains(st.entry(ar, g, d as int, s as int)));
            assert(st.holds(ar, g, s as int, d as int, -1, 0));
            lemma_single(open@[0]);
            assert(open@ =~= seq![open@[0]]);
            assert(lengths@ =~= started(ar, g, s as int, d as int).lengths);
            assert(before@ =~= started(ar, g, s as int, d as int).before);
            assert(closed@ =~= started(ar, g, s as int, d as int).closed);
        }
        let ghost mut k: int = 0;
        while open.len() > 0
            invariant_except_break
                (Search {
                    lengths: lengths@,
                    before: before@,
                    closed: closed@,
                    open: open@,
                    walks,
                }).holds(ar, g, s as int, d as int, -1, 0),
                !closed@[d as int],
                closed@[s as int] || (open@.len() == 1 && open@[0].1 == s),
            invariant
                arith::is_unit(*fpu),
                ar == arith::arith(*fpu),
                g == self@,
                g.wf(),
                n == g.n(),
                rows(coords@) == g.coords,
                rows(adjacency@) == g.adj,
                coords@.len() == n,
                adjacency@.len() == n,
                s < n,
                d < n,
                s != d,
                0 <= k,
                searched(ar, g, s as int, d as int, k) == knowing(
                    lengths@,
                    before@,
                    closed@,
                    open@,
                ),
            ensures
                closed@.len() == n,
                lengths@.len() == n,
                before@.len() == n,
                walks.len() == n,
                (Search {
                    lengths: lengths@,
                    before: before@,
                    closed: closed@,
                    open: open@,
                    walks,
                }).walks_hold(ar, g, s as int),
                !closed@[d as int] ==> open@.len() == 0 && (Search {
                    lengths: lengths@,
                    before: before@,
                    closed: closed@,
                    open: open@,
                    walks,
                }).holds(ar, g, s as int, d as int, -1, 0),
                closed@[d as int] && exact_lengths(ar, g, s as int, d as int) ==> forall|
                    q: Seq<int>,
                | #[trigger]
                    route(g, q, s as int, d as int) && q.no_duplicates() ==> order::le(
                        lengths@[d as int],
                        walk_length(ar, g, q),
                    ),
            decreases unclosed(closed@), open@.len(),
        {
            let ghost st = Search {
                lengths: lengths@,
                before: before@,
                closed: closed@,
                open: open@,
                walks,
            };
            let m: usize = lowest(&open);
            let cur: u32 = open[m].1;
            let ghost run = searched(ar, g, s as int, d as int, k);
            proof {
                lemma_foremost(open@, m as int);
                assert(!over(run, d as int));
            }
            let _ = open.swap_remove(m);
            proof {
                k = k + 1;
                assert(open@ == without(st.open, m as int));
                assert(st.open[m as int].1 == cur);
                assert(st.seen(cur as int));
            }
            if closed[cur as usize] {
                proof {
                    lemma_drop(st, ar, g, s as int, d as int, m as int);
                    assert(searched(ar, g, s as int, d as int, k) == knowing(
                        lengths@,
                        before@,
                        closed@,
                        open@,
                    ));
                }
                continue;
            }
            proof {
                lemma_close(st, ar, g, s as int, d as int, m as int);
                lemma_unclosed(st.closed, cur as int);
                assert(closed@[s as int] || cur == s);
            }
            closed.set(cur as usize, true);
            if cur == d {
                proof {
                    let t = Search {
                        lengths: lengths@,
                        before: before@,
                        closed: closed@,
                        open: open@,
                        walks,
                    };
                    assert(t == Search {
                        open: without(st.open, m as int),
                        closed: st.closed.update(cur as int, true),
                        ..st
                    });
                    if exact_lengths(ar, g, s as int, d as int) {
                        assert forall|q: Seq<int>| #[trigger]
                            route(g, q, s as int, d as int) && q.no_duplicates() implies order::le(
                            lengths@[d as int],
                            walk_length(ar, g, q),
                        ) by {
                            assert(t.closed[d as int]);
                        }
                    }
                }
                break;
            }
            let row: &Vec<u32> = &adjacency[cur as usize];
            assert(g.adj[cur as int] == row@);
            let ghost now = closed@;
            let ghost from = knowing(lengths@, before@, closed@, open@);
            assert(searched(ar, g, s as int, d as int, k) == spread(
                ar,
                g,
                d as int,
                cur as int,
                from,
                row@.len() as int,
            ));
            let mut j: usize = 0;
            while j < row.len()
                invariant
                    j <= row@.len(),
                    row@ == g.adj[cur as int],
                    arith::is_unit(*fpu),
                    ar == arith::arith(*fpu),
                    g.wf(),
                    n == g.n(),
                    rows(coords@) == g.coords,
                    coords@.len() == n,
                    s < n,
                    d < n,
                    cur < n,
                    cur != d,
                    closed@ == now,
                    now.len() == n,
                    now[cur as int],
                    now[s as int],
                    !now[d as int],
                    (Search {
                        lengths: lengths@,
                        before: before@,
                        closed: closed@,
                        open: open@,
                        walks,
                    }).holds(ar, g, s as int, d as int, cur as int, j as int),
                    knowing(lengths@, before@, closed@, open@) == spread(
                        ar,
                        g,
                        d as int,
                        cur as int,
                        from,
                        j as int,
                    ),
                decreases row@.len() - j,
            {
                let ghost at = Search {
                    lengths: lengths@,
                    before: before@,
                    closed: closed@,
                    open: open@,
                    walks,
                };
                let next: u32 = row[j];
                proof {
                    assert(g.adj[cur as int][j as int] < g.n());
                    assert(rows(coords@)[cur as int] == coords@[cur as int]@);
                    assert(rows(coords@)[next as int] == coords@[next as int]@);
                    assert(rows(coords@)[d as int] == coords@[d as int]@);
                    assert(at.seen(cur as int));
                    assert(at.tracked_walk(ar, g, s as int, cur as int));
                    lemma_push(ar, g, walks[cur as int], next as int);
                }
                if closed[next as usize] {
                    proof {
                        lemma_pass(at, ar, g, s as int, d as int, cur as int, j as int);
                    }
                    j += 1;
                    continue;
                }
                let w: u32 = vectors::euclidean(fpu, &coords[cur as usize], &coords[next as usize]);
                let tentative: u32 = arith::binary(fpu, Op::Add, lengths[cur as usize], w);
                assert(tentative == walk_length(ar, g, walks[cur as int].push(next as int)));
                if order::less(tentative, lengths[next as usize]) {
                    lengths.set(next as usize, tentative);
                    before.set(next as usize, cur);
                    let h: u32 = vectors::euclidean(fpu, &coords[next as usize], &coords[d as usize]);
                    let f: u32 = arith::binary(fpu, Op::Add, tentative, h);
                    open.push((order::key_of_position(f), next));
                    proof {
                        vstd::seq_lib::to_multiset_build(at.open, open@.last());
                        lemma_improve(at, ar, g, s as int, d as int, cur as int, j as int);
                        walks = walks.update(next as int, walks[cur as int].push(next as int));
                        let t = Search {
                            lengths: lengths@,
                            before: before@,
                            closed: closed@,
                            open: open@,
                            walks,
                        };
                        assert(t =~= improved(at, ar, g, d as int, cur as int, next as int));
                    }
                } else {
                    proof {
                        lemma_pass(at, ar, g, s as int, d as int, cur as int, j as int);
                    }
                }
                j += 1;
            }
            proof {
                let t = Search {
                    lengths: lengths@,
                    before: before@,
                    closed: closed@,
                    open: open@,
                    walks,
                };
                lemma_settled(t, ar, g, s as int, d as int, cur as int);
            }
        }
        let ghost st = Search {
            lengths: lengths@,
            before: before@,
            closed: closed@,
            open: open@,
            walks,
        };
        if !closed[d as usize] {
            proof {
                if finite_lengths(ar, g, s as int) && reachable(g, s as int, d as int) {
                    let p = choose|p: Seq<int>| #[trigger] route(g, p, s as int, d as int);
                    lemma_exhausted(st, ar, g, s as int, d as int, p);
                }
                vstd::seq_lib::to_multiset_len(open@);
                assert(open@.to_multiset() =~= Multiset::<(u64, u32)>::empty());
                assert(concludes(ar, g, s as int, d as int, k, None));
            }
            return None;
        }
        let r: Vec<u64> = retrace(ids, &before, s, d, Ghost(st), Ghost(ar), Ghost(g));
        proof {
            let p = walks[d as int];
            assert(st.closed[d as int]);
            assert(st.seen(d as int));
            assert(st.tracked_walk(ar, g, s as int, d as int));
            assert(leads(ar, g, s as int, d as int, r@, p));
            assert(path(ar, g, s as int, d as int, r@));
            lemma_walk_follows(st, ar, g, s as int, d as int);
            let run = searched(ar, g, s as int, d as int, k);
            assert(run.before == st.before && run.closed == st.closed);
            assert(follows(run.before, p, s as int, d as int) && r@ == visited(g, p));
            assert(concludes(ar, g, s as int, d as int, k, Some(r@)));
        }
        Some(r)
    }
}

proof fn lemma_single(e: (u64, u32))
    ensures
        seq![e].to_multiset() == Multiset::singleton(e),
{
    broadcast use vstd::seq_lib::group_to_multiset_ensures;

    assert(seq![e] =~= Seq::<(u64, u32)>::empty().push(e));
    assert(Seq::<(u64, u32)>::empty().to_multiset() =~= Multiset::empty());
    assert(seq![e].to_multiset() =~= Multiset::singleton(e));
}

/// When all neighbours of `cur` have been looked at, nothing is left over.
proof fn lemma_settled(st: Search, ar: Arith, g: GraphView, s: int, d: int, cur: int)
    requires
        0 <= cur < g.n(),
        st.holds(ar, g, s, d, cur, g.adj[cur].len() as int),
    ensures
        st.holds(ar, g, s, d, -1, 0),
{
}

} // verus!
