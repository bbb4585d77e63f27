//! Graphs and paths.

use vstd::multiset::Multiset;
use vstd::prelude::*;

use super::angle_cosine;
use super::common;
use super::euclid;
use super::lemma_total_none;
use super::lemma_total_take;
use super::magnitude;
use super::measures;
use super::number;
use super::total;
use crate::arith::Arith;
use crate::arith::Op;
use crate::manifold::classes;
use crate::manifold::graph::GraphView;
use crate::manifold::paths;
use crate::manifold::roaming;
use crate::manifold::wiring;
use crate::order;
use crate::predicate::Condition;
use crate::random;
use crate::sorting;
use crate::trajectory;

verus! {

/// The places of the nodes of `p`.
pub open spec fn places(g: GraphView, p: Seq<int>) -> Seq<Seq<u32>> {
    Seq::new(p.len(), |i: int| g.coords[p[i]])
}

/// The Euclidean distance from each of `points` to the next.
pub open spec fn strides(ar: Arith, points: Seq<Seq<u32>>) -> Seq<u32> {
    Seq::new((points.len() - 1) as nat, |i: int| euclid(ar, points[i], points[i + 1]))
}

/// The way along `points`: the sum of the Euclidean distances from each to the
/// next, where the distance of x and y is the root of the sum of the squares
/// of their differences.
pub open spec fn way(ar: Arith, points: Seq<Seq<u32>>) -> u32 {
    total(ar, strides(ar, points))
}

/// The way along the nodes of `p`, and on in a straight line to `d`.
pub open spec fn way_on(ar: Arith, g: GraphView, p: Seq<int>, d: int) -> u32 {
    ar(Op::Add, way(ar, places(g, p)), euclid(ar, g.coords[p.last()], g.coords[d]), 0)
}

/// The length of a walk is the way along the places of its nodes.
pub proof fn walks_are_as_long_as_their_edges(ar: Arith, g: GraphView, p: Seq<int>)
    requires
        p.len() > 0,
    ensures
        paths::walk_length(ar, g, p) == way(ar, places(g, p)),
    decreases p.len(),
{
    let s = strides(ar, places(g, p));
    let n = s.len() as int;
    assert(s.take(n) =~= s);
    if p.len() == 1 {
        lemma_total_none(ar, s);
    } else {
        let q = p.drop_last();
        walks_are_as_long_as_their_edges(ar, g, q);
        lemma_total_take(ar, s, n);
        assert(s.take(n - 1) =~= strides(ar, places(g, q)));
        measures::distances_are_euclidean(ar, g.coords[p[p.len() - 2]], g.coords[p.last()]);
    }
}

/// On ways from `s` that visit no node twice the arithmetic rounds nothing
/// that matters: they are finite, going on never brings the straight line to
/// `d` closer than the way is long, of two ways to one node the shorter is the
/// shorter with the straight line to `d`, and it stays the shorter when both
/// go on along one edge.
pub open spec fn ways_add_up(ar: Arith, g: GraphView, s: int, d: int) -> bool {
    &&& forall|p: Seq<int>|
        #![trigger paths::simple(g, p, s)]
        paths::simple(g, p, s) ==> order::lt(way(ar, places(g, p)), 0x7f80_0000)
    &&& forall|p: Seq<int>|
        #![trigger paths::simple(g, p, s)]
        paths::simple(g, p, s) && p.len() > 1 ==> order::position(way_on(ar, g, p.drop_last(), d))
            <= order::position(way_on(ar, g, p, d))
    &&& forall|p: Seq<int>, q: Seq<int>|
        #![trigger paths::simple(g, p, s), paths::simple(g, q, s)]
        paths::simple(g, p, s) && paths::simple(g, q, s) && p.last() == q.last() ==> (order::le(
            way(ar, places(g, p)),
            way(ar, places(g, q)),
        ) <==> order::position(way_on(ar, g, p, d)) <= order::position(way_on(ar, g, q, d)))
    &&& forall|p: Seq<int>, q: Seq<int>, v: int|
        #![trigger paths::simple(g, p.push(v), s), paths::simple(g, q.push(v), s)]
        paths::simple(g, p.push(v), s) && p.len() > 0 && paths::simple(g, q.push(v), s) && q.len()
            > 0 && p.last() == q.last() && order::le(way(ar, places(g, p)), way(ar, places(g, q)))
            ==> order::le(way(ar, places(g, p.push(v))), way(ar, places(g, q.push(v))))
}

proof fn lemma_estimates(ar: Arith, g: GraphView, p: Seq<int>, d: int)
    requires
        p.len() > 0,
    ensures
        paths::estimate(ar, g, p, d) == way_on(ar, g, p, d),
        paths::walk_length(ar, g, p) == way(ar, places(g, p)),
{
    walks_are_as_long_as_their_edges(ar, g, p);
    measures::distances_are_euclidean(ar, g.coords[p.last()], g.coords[d]);
}

proof fn lemma_exact(ar: Arith, g: GraphView, s: int, d: int)
    requires
        ways_add_up(ar, g, s, d),
    ensures
        paths::exact_lengths(ar, g, s, d),
{
    assert forall|p: Seq<int>| paths::simple(g, p, s) implies order::lt(
        #[trigger] paths::walk_length(ar, g, p),
        order::INFINITY,
    ) by {
        lemma_estimates(ar, g, p, d);
    }
    assert forall|p: Seq<int>|
        #![trigger paths::estimate(ar, g, p, d)]
        paths::simple(g, p, s) && p.len() > 1 implies order::position(
        paths::estimate(ar, g, p.drop_last(), d),
    ) <= order::position(paths::estimate(ar, g, p, d)) by {
        lemma_estimates(ar, g, p, d);
        lemma_estimates(ar, g, p.drop_last(), d);
    }
    assert forall|p: Seq<int>, q: Seq<int>|
        #![trigger paths::estimate(ar, g, p, d), paths::estimate(ar, g, q, d)]
        paths::simple(g, p, s) && paths::simple(g, q, s) && p.last() == q.last() implies (order::le(
        paths::walk_length(ar, g, p),
        paths::walk_length(ar, g, q),
    ) <==> order::position(paths::estimate(ar, g, p, d)) <= order::position(
        paths::estimate(ar, g, q, d),
    )) by {
        lemma_estimates(ar, g, p, d);
        lemma_estimates(ar, g, q, d);
    }
    assert forall|p: Seq<int>, q: Seq<int>, v: int|
        #![trigger paths::simple(g, p.push(v), s), paths::simple(g, q.push(v), s)]
        paths::simple(g, p.push(v), s) && p.len() > 0 && paths::simple(g, q.push(v), s) && q.len()
            > 0 && p.last() == q.last() && order::le(
            paths::walk_length(ar, g, p),
            paths::walk_length(ar, g, q),
        ) implies order::le(
        paths::walk_length(ar, g, p.push(v)),
        paths::walk_length(ar, g, q.push(v)),
    ) by {
        walks_are_as_long_as_their_edges(ar, g, p);
        walks_are_as_long_as_their_edges(ar, g, q);
        walks_are_as_long_as_their_edges(ar, g, p.push(v));
        walks_are_as_long_as_their_edges(ar, g, q.push(v));
    }
}

/// The path between two records is the shortest: it goes along edges from one
/// to the other, visits no node twice, and no way along edges that visits no
/// node twice has a smaller sum of Euclidean distances.
pub proof fn geodesics_are_shortest(ar: Arith, g: GraphView, s: int, t: int, ids: Seq<u64>)
    requires
        paths::path(ar, g, s, t, ids),
        ways_add_up(ar, g, s, t),
    ensures
        exists|p: Seq<int>|
            {
                &&& #[trigger] paths::route(g, p, s, t)
                &&& p.no_duplicates()
                &&& ids =~= Seq::new(p.len(), |i: int| g.ids[p[i]])
                &&& forall|q: Seq<int>|
                    #[trigger] paths::route(g, q, s, t) && q.no_duplicates() ==> order::le(
                        way(ar, places(g, p)),
                        way(ar, places(g, q)),
                    )
            },
{
    lemma_exact(ar, g, s, t);
    let p = choose|p: Seq<int>| #[trigger] paths::leads(ar, g, s, t, ids, p);
    assert(paths::route(g, p, s, t));
    assert(ids =~= Seq::new(p.len(), |i: int| g.ids[p[i]]));
    walks_are_as_long_as_their_edges(ar, g, p);
    assert forall|q: Seq<int>|
        #[trigger] paths::route(g, q, s, t) && q.no_duplicates() implies order::le(
        way(ar, places(g, p)),
        way(ar, places(g, q)),
    ) by {
        assert(paths::route(g, q, p[0], p.last()));
        walks_are_as_long_as_their_edges(ar, g, q);
    }
}

/// A walk goes from node to node along edges.
pub proof fn walks_follow_edges(g: GraphView, p: Seq<int>, i: int)
    requires
        paths::walk(g, p),
        0 <= i < p.len() - 1,
    ensures
        g.adj[p[i]].contains(p[i + 1] as u32),
        0 <= p[i] < g.n(),
        0 <= p[i + 1] < g.n(),
    decreases p.len(),
{
    if i < p.len() - 2 {
        let q = p.drop_last();
        walks_follow_edges(g, q, i);
        assert(q[i] == p[i] && q[i + 1] == p[i + 1]);
    }
}

/// The places of the records of a path.
pub open spec fn record_places(g: GraphView, path: Seq<u64>) -> Seq<Seq<u32>> {
    Seq::new(path.len(), |i: int| g.coords[g.node(path[i])])
}

proof fn lemma_toured(ar: Arith, g: GraphView, path: Seq<u64>, n: int)
    requires
        0 <= n < path.len(),
        forall|i: int| 0 <= i < path.len() ==> g.has(#[trigger] path[i]),
    ensures
        trajectory::toured(ar, g, path, n).length == total(
            ar,
            strides(ar, record_places(g, path)).take(n),
        ),
        trajectory::toured(ar, g, path, n).steps == n,
    decreases n,
{
    let s = strides(ar, record_places(g, path));
    if n > 0 {
        lemma_toured(ar, g, path, n - 1);
        lemma_total_take(ar, s, n);
        assert(g.has(path[n - 1]) && g.has(path[n]));
        measures::distances_are_euclidean(
            ar,
            g.coords[g.node(path[n - 1])],
            g.coords[g.node(path[n])],
        );
    } else {
        lemma_total_none(ar, s);
    }
}

/// The length of a path is the sum of the Euclidean distances from each of its
/// records to the next, and its number of steps is one less than it has
/// records. That is the length that the search for the shortest path compares.
pub proof fn paths_are_as_long_as_their_steps(ar: Arith, g: GraphView, path: Seq<u64>)
    requires
        path.len() >= 2,
        path.len() <= usize::MAX,
        forall|i: int| 0 <= i < path.len() ==> g.has(#[trigger] path[i]),
    ensures
        trajectory::geometry(ar, g, path).length == way(ar, record_places(g, path)),
        trajectory::geometry(ar, g, path).n_steps == path.len() - 1,
        trajectory::geometry(ar, g, path).length == paths::walk_length(
            ar,
            g,
            Seq::new(path.len(), |i: int| g.node(path[i])),
        ),
{
    let n = path.len() - 1;
    let s = strides(ar, record_places(g, path));
    lemma_toured(ar, g, path, n);
    assert(s.take(n) =~= s);
    let p = Seq::new(path.len(), |i: int| g.node(path[i]));
    walks_are_as_long_as_their_edges(ar, g, p);
    assert(places(g, p) =~= record_places(g, path));
}

/// Whatever goes from node to node along edges is a walk.
pub proof fn edges_make_walks(g: GraphView, p: Seq<int>)
    requires
        p.len() > 0,
        forall|i: int| 0 <= i < p.len() ==> 0 <= #[trigger] p[i] < g.n(),
        forall|i: int|
            0 <= i < p.len() - 1 ==> (#[trigger] g.adj[p[i]]).contains(p[i + 1] as u32),
    ensures
        paths::walk(g, p),
    decreases p.len(),
{
    if p.len() > 1 {
        let q = p.drop_last();
        assert forall|i: int| 0 <= i < q.len() implies 0 <= #[trigger] q[i] < g.n() by {
            assert(q[i] == p[i]);
        }
        assert forall|i: int| 0 <= i < q.len() - 1 implies (#[trigger] g.adj[q[i]]).contains(
            q[i + 1] as u32,
        ) by {
            assert(q[i] == p[i] && q[i + 1] == p[i + 1]);
            assert(g.adj[p[i]].contains(p[i + 1] as u32));
        }
        edges_make_walks(g, q);
        let k = p.len() - 2;
        assert(g.adj[p[k]].contains(p[k + 1] as u32));
        assert(0 <= p[k] < g.n() && 0 <= p[k + 1] < g.n());
    }
}

/// Where ways are finite, the search has no excuse not to find one.
pub proof fn finite_ways_are_found(ar: Arith, g: GraphView, s: int)
    requires
        forall|p: Seq<int>|
            #![trigger paths::simple(g, p, s)]
            paths::simple(g, p, s) ==> order::lt(way(ar, places(g, p)), 0x7f80_0000),
    ensures
        paths::finite_lengths(ar, g, s),
{
    assert forall|p: Seq<int>| paths::simple(g, p, s) implies order::lt(
        #[trigger] paths::walk_length(ar, g, p),
        order::INFINITY,
    ) by {
        walks_are_as_long_as_their_edges(ar, g, p);
    }
}

/// The step from the `i`-th of `points` to the next.
pub open spec fn leg(ar: Arith, points: Seq<Seq<u32>>, i: int) -> Seq<u32> {
    Seq::new(
        common(points[i], points[i + 1]),
        |j: int| ar(Op::Sub, points[i + 1][j], points[i][j], 0),
    )
}

/// The angle between the `i`-th step along `points` and the next.
pub open spec fn turn(ar: Arith, points: Seq<Seq<u32>>, i: int) -> u32 {
    ar(
        Op::Acos,
        order::clamped(
            angle_cosine(ar, leg(ar, points, i), leg(ar, points, i + 1)),
            0xbf80_0000,
            0x3f80_0000,
        ),
        0,
        0,
    )
}

/// The angles from each step along `points` to the next.
pub open spec fn turns(ar: Arith, points: Seq<Seq<u32>>) -> Seq<u32> {
    Seq::new((points.len() - 2) as nat, |i: int| turn(ar, points, i))
}

/// No step along `points` is too short to have a direction.
pub open spec fn strides_out(ar: Arith, points: Seq<Seq<u32>>) -> bool {
    forall|i: int|
        #![trigger leg(ar, points, i)]
        0 <= i < points.len() - 1 ==> order::lt(0x3400_0000, magnitude(ar, leg(ar, points, i)))
            && order::lt(0x3400_0000, euclid(ar, points[i], points[i + 1]))
}

proof fn lemma_turned(ar: Arith, g: GraphView, path: Seq<u64>, n: int)
    requires
        1 <= n < path.len(),
        forall|i: int| 0 <= i < path.len() ==> g.has(#[trigger] path[i]),
        strides_out(ar, record_places(g, path)),
    ensures
        ({
            let t = trajectory::toured(ar, g, path, n);
            let points = record_places(g, path);
            &&& t.angles == total(ar, turns(ar, points).take(n - 1))
            &&& t.turns == n - 1
            &&& t.last == Some(leg(ar, points, n - 1))
        }),
    decreases n,
{
    let points = record_places(g, path);
    let all = turns(ar, points);
    assert(g.has(path[n - 1]) && g.has(path[n]));
    let from = g.coords[g.node(path[n - 1])];
    let to = g.coords[g.node(path[n])];
    assert(points[n - 1] == from && points[n] == to);
    assert(trajectory::displacement(ar, from, to) =~= leg(ar, points, n - 1));
    measures::distances_are_euclidean(ar, from, to);
    assert(order::lt(0x3400_0000, magnitude(ar, leg(ar, points, n - 1))));
    if n > 1 {
        lemma_turned(ar, g, path, n - 1);
        lemma_total_take(ar, all, n - 1);
        measures::lengths_are_euclidean(ar, leg(ar, points, n - 2));
        assert(order::lt(0x3400_0000, magnitude(ar, leg(ar, points, n - 2))));
        measures::similarities_are_cosines(ar, leg(ar, points, n - 2), leg(ar, points, n - 1));
    } else {
        lemma_total_none(ar, all);
        assert(trajectory::toured(ar, g, path, 0) == trajectory::departure());
    }
}

/// The mean curvature of a path is the mean of the angles between each of its
/// steps and the next.
pub proof fn curvature_is_the_mean_turn(ar: Arith, g: GraphView, path: Seq<u64>)
    requires
        path.len() >= 3,
        path.len() <= usize::MAX,
        forall|i: int| 0 <= i < path.len() ==> g.has(#[trigger] path[i]),
        strides_out(ar, record_places(g, path)),
    ensures
        trajectory::geometry(ar, g, path).mean_curvature == ar(
            Op::Div,
            total(ar, turns(ar, record_places(g, path))),
            number(ar, path.len() - 2),
            0,
        ),
{
    let n = path.len() - 1;
    let all = turns(ar, record_places(g, path));
    lemma_turned(ar, g, path, n);
    lemma_toured(ar, g, path, n);
    assert(all.take(n - 1) =~= all);
}

/// The cosine of the angle between the places of the `i`-th record of a path
/// and of the next.
pub open spec fn bend(ar: Arith, g: GraphView, path: Seq<u64>, i: int) -> u32 {
    angle_cosine(ar, g.coords[g.node(path[i])], g.coords[g.node(path[i + 1])])
}

proof fn lemma_least_bend(ar: Arith, g: GraphView, path: Seq<u64>, n: int)
    requires
        0 <= n < path.len(),
        forall|i: int| 0 <= i < path.len() ==> g.has(#[trigger] path[i]),
    ensures
        ({
            let least = trajectory::toured(ar, g, path, n).least_cosine;
            &&& !order::nan(least)
            &&& !order::lt(0x3f80_0000, least)
            &&& forall|i: int| 0 <= i < n ==> !order::lt(#[trigger] bend(ar, g, path, i), least)
            &&& least == 0x3f80_0000 || exists|i: int|
                0 <= i < n && least == #[trigger] bend(ar, g, path, i)
        }),
    decreases n,
{
    if n > 0 {
        lemma_least_bend(ar, g, path, n - 1);
        assert(g.has(path[n - 1]) && g.has(path[n]));
        measures::similarities_are_cosines(
            ar,
            g.coords[g.node(path[n - 1])],
            g.coords[g.node(path[n])],
        );
        let before = trajectory::toured(ar, g, path, n - 1).least_cosine;
        let least = trajectory::toured(ar, g, path, n).least_cosine;
        let last = bend(ar, g, path, n - 1);
        if least == last && order::lt(last, before) {
            assert(bend(ar, g, path, n - 1) == least);
        } else if least != 0x3f80_0000 {
            let i = choose|i: int| 0 <= i < n - 1 && before == #[trigger] bend(ar, g, path, i);
            assert(bend(ar, g, path, i) == least);
        }
    }
}

/// The least cosine of a path is that of one of its steps, or one, and no step
/// has a smaller one.
pub proof fn least_cosines_are_least(ar: Arith, g: GraphView, path: Seq<u64>)
    requires
        path.len() >= 2,
        path.len() <= usize::MAX,
        forall|i: int| 0 <= i < path.len() ==> g.has(#[trigger] path[i]),
    ensures
        ({
            let least = trajectory::geometry(ar, g, path).min_adjacent_cosine;
            &&& forall|i: int|
                0 <= i < path.len() - 1 ==> !order::lt(#[trigger] bend(ar, g, path, i), least)
            &&& least == 0x3f80_0000 || exists|i: int|
                0 <= i < path.len() - 1 && least == #[trigger] bend(ar, g, path, i)
        }),
{
    let n = path.len() - 1;
    lemma_least_bend(ar, g, path, n);
    lemma_toured(ar, g, path, n);
}

/// The Euclidean distance of the `i`-th records of two paths.
pub open spec fn gap(ar: Arith, g: GraphView, a: Seq<u64>, b: Seq<u64>, i: int) -> u32 {
    euclid(ar, g.coords[g.node(a[i])], g.coords[g.node(b[i])])
}

proof fn lemma_onset(
    ar: Arith,
    g: GraphView,
    a: Seq<u64>,
    b: Seq<u64>,
    threshold: u32,
    i: int,
)
    requires
        0 <= i <= a.len() <= usize::MAX,
        trajectory::comparable(g, a, b),
    ensures
        match trajectory::onset(ar, g, a, b, threshold, i) {
            Some(k) => {
                &&& i <= k < a.len()
                &&& order::lt(threshold, gap(ar, g, a, b, k as int))
                &&& forall|j: int|
                    i <= j < k ==> !order::lt(threshold, #[trigger] gap(ar, g, a, b, j))
            },
            None => forall|j: int|
                i <= j < a.len() ==> !order::lt(threshold, #[trigger] gap(ar, g, a, b, j)),
        },
    decreases a.len() - i,
{
    if i < a.len() {
        assert(g.has(a[i]) && g.has(b[i]));
        measures::distances_are_euclidean(
            ar,
            g.coords[g.node(a[i])],
            g.coords[g.node(b[i])],
        );
        lemma_onset(ar, g, a, b, threshold, i + 1);
    }
}

/// How two paths part: the ratio is that of the last Euclidean distance to the
/// first, and the onset is the first step at which they are more than half as
/// far apart again as at the start. Paths that start together, to a hundred
/// millionth, have no onset, and a ratio of infinity or one.
pub proof fn bifurcations_compare_distances(ar: Arith, g: GraphView, a: Seq<u64>, b: Seq<u64>)
    requires
        a.len() == b.len(),
        0 < a.len() <= usize::MAX,
        forall|i: int| 0 <= i < a.len() ==> g.has(#[trigger] a[i]),
        forall|i: int| 0 <= i < b.len() ==> g.has(#[trigger] b[i]),
    ensures
        ({
            let r = trajectory::bifurcation(ar, g, a, b);
            let first = gap(ar, g, a, b, 0);
            let last = gap(ar, g, a, b, a.len() - 1);
            let far = ar(Op::Mul, 0x3fc0_0000, first, 0);
            &&& r.final_separation == last
            &&& order::lt(0x322b_cc77, first) ==> r.separation_ratio == ar(Op::Div, last, first, 0)
            &&& !order::lt(0x322b_cc77, first) ==> r.onset_step is None && r.separation_ratio
                == if order::lt(0x322b_cc77, last) {
                0x7f80_0000u32
            } else {
                0x3f80_0000u32
            }
            &&& order::lt(0x322b_cc77, first) ==> match r.onset_step {
                Some(k) => {
                    &&& 1 <= k < a.len()
                    &&& order::lt(far, gap(ar, g, a, b, k as int))
                    &&& forall|j: int|
                        1 <= j < k ==> !order::lt(far, #[trigger] gap(ar, g, a, b, j))
                },
                None => forall|j: int|
                    1 <= j < a.len() ==> !order::lt(far, #[trigger] gap(ar, g, a, b, j)),
            }
        }),
{
    assert(trajectory::comparable(g, a, b));
    let n = a.len() - 1;
    assert(g.has(a[0]) && g.has(b[0]) && g.has(a[n]) && g.has(b[n]));
    measures::distances_are_euclidean(ar, g.coords[g.node(a[0])], g.coords[g.node(b[0])]);
    measures::distances_are_euclidean(ar, g.coords[g.node(a[n])], g.coords[g.node(b[n])]);
    let first = gap(ar, g, a, b, 0);
    lemma_onset(ar, g, a, b, ar(Op::Mul, 0x3fc0_0000, first, 0), 1);
}

/// The nodes of a built graph are the records that satisfy the predicate, in
/// their order, with their ids and vectors.
pub proof fn nodes_are_the_records_that_pass(
    ar: Arith,
    p: Condition,
    records: Seq<(u64, Seq<u32>)>,
    k: int,
    check: bool,
    g: GraphView,
)
    requires
        wiring::connects(ar, p, records, k, check, g),
    ensures
        ({
            let passing = records.filter(|r: (u64, Seq<u32>)| p(r.1));
            &&& g.ids =~= Seq::new(passing.len(), |i: int| passing[i].0)
            &&& g.coords =~= Seq::new(passing.len(), |i: int| passing[i].1)
        }),
{
    lemma_kept_filter(p, records, records.len() as int);
    assert(records.take(records.len() as int) =~= records);
    let nodes = wiring::kept(p, records, records.len() as int);
    assert forall|i: int| 0 <= i < g.n() implies g.ids[i] == nodes[i].0 && g.coords[i]
        == nodes[i].1 by {
        assert(g.ids[i] == nodes[i].0);
    }
}

proof fn lemma_kept_filter(p: Condition, records: Seq<(u64, Seq<u32>)>, n: int)
    requires
        0 <= n <= records.len(),
    ensures
        wiring::kept(p, records, n) == records.take(n).filter(|r: (u64, Seq<u32>)| p(r.1)),
    decreases n,
{
    reveal(Seq::filter);
    if n > 0 {
        lemma_kept_filter(p, records, n - 1);
        assert(records.take(n).drop_last() =~= records.take(n - 1));
        assert(records.take(n).last() == records[n - 1]);
    } else {
        assert(records.take(0).filter(|r: (u64, Seq<u32>)| p(r.1)) =~= Seq::<
            (u64, Seq<u32>),
        >::empty());
    }
}

/// `c` is nearer to `a` than `b` is, or as near with a lower number.
pub open spec fn closer(ar: Arith, coords: Seq<Seq<u32>>, a: int, c: int, b: int) -> bool {
    let x = order::position(euclid(ar, coords[a], coords[c]));
    let y = order::position(euclid(ar, coords[a], coords[b]));
    x < y || (x == y && c < b)
}

proof fn lemma_others_hold(ar: Arith, coords: Seq<Seq<u32>>, a: int, n: int)
    requires
        0 <= n <= coords.len(),
        coords.len() <= u32::MAX,
    ensures
        ({
            let o = wiring::others(ar, coords, a, n);
            &&& o.no_duplicates()
            &&& o.len() == if 0 <= a < n {
                n - 1
            } else {
                n
            }
            &&& forall|i: int|
                0 <= i < o.len() ==> (#[trigger] o[i]).1 < n && o[i].1 != a && o[i].0
                    == order::position_key(euclid(ar, coords[a], coords[o[i].1 as int]))
            &&& forall|b: int|
                0 <= b < n && b != a ==> o.contains(
                    #[trigger] entry(ar, coords, a, b),
                )
        }),
    decreases n,
{
    if n > 0 {
        lemma_others_hold(ar, coords, a, n - 1);
        let before = wiring::others(ar, coords, a, n - 1);
        let o = wiring::others(ar, coords, a, n);
        measures::distances_are_euclidean(ar, coords[a], coords[n - 1]);
        order::position_is_total(euclid(ar, coords[a], coords[n - 1]), 0);
        if n - 1 != a {
            let e = entry(ar, coords, a, n - 1);
            assert(o == before.push(e));
            assert forall|i: int| 0 <= i < o.len() implies (#[trigger] o[i]).1 < n && o[i].1 != a
                && o[i].0 == order::position_key(
                euclid(ar, coords[a], coords[o[i].1 as int]),
            ) by {
                if i < before.len() {
                    assert(o[i] == before[i]);
                }
            }
            assert forall|i: int, j: int|
                0 <= i < o.len() && 0 <= j < o.len() && i != j implies o[i] != o[j] by {
                if i < before.len() && j < before.len() {
                    assert(before[i] != before[j]);
                } else if i < before.len() {
                    assert(before[i].1 < n - 1);
                } else {
                    assert(before[j].1 < n - 1);
                }
            }
            assert forall|b: int| 0 <= b < n && b != a implies o.contains(
                #[trigger] entry(ar, coords, a, b),
            ) by {
                if b < n - 1 {
                    let f = entry(ar, coords, a, b);
                    assert(before.contains(f));
                    let i = choose|i: int| 0 <= i < before.len() && before[i] == f;
                    assert(o[i] == f);
                } else {
                    assert(o[before.len() as int] == e);
                }
            }
        }
    }
}

/// What node `b` is ranked by for node `a`.
spec fn entry(ar: Arith, coords: Seq<Seq<u32>>, a: int, b: int) -> (u64, u64) {
    (order::position_key(euclid(ar, coords[a], coords[b])) as u64, b as u64)
}

/// A node picks the nodes at the least Euclidean distance: whatever it picks is
/// another node, and it picks everything that is closer.
pub proof fn the_nearest_are_picked(
    ar: Arith,
    coords: Seq<Seq<u32>>,
    k: int,
    a: int,
    b: int,
    c: int,
)
    requires
        coords.len() <= u32::MAX,
        0 <= a < coords.len(),
        wiring::near(ar, coords, k, a, b),
        0 <= c < coords.len(),
        c != a,
        closer(ar, coords, a, c, b),
    ensures
        b != a,
        0 <= b < coords.len(),
        wiring::near(ar, coords, k, a, c),
{
    let n = coords.len() as int;
    let o = wiring::others(ar, coords, a, n);
    let r = sorting::ranked(o);
    lemma_others_hold(ar, coords, a, n);
    sorting::lemma_ranked(o);
    let i = choose|i: int| #[trigger] wiring::near_at(ar, coords, k, a, b, i);
    assert(r.contains(r[i]));
    assert(o.contains(r[i]));
    let x = choose|x: int| 0 <= x < o.len() && o[x] == r[i];
    assert(o[x].1 == b);
    let f = entry(ar, coords, a, c);
    assert(o.contains(f));
    assert(r.contains(f));
    let j = choose|j: int| 0 <= j < r.len() && r[j] == f;
    order::position_is_total(euclid(ar, coords[a], coords[c]), 0);
    order::position_is_total(euclid(ar, coords[a], coords[b]), 0);
    if j > i {
        assert(sorting::pair_order()(r[i], r[j]));
    }
    assert(wiring::near_at(ar, coords, k, a, c, j));
}

/// A node picks as many nodes as it is asked to, or all others if there are
/// fewer.
pub proof fn as_many_are_picked_as_asked(
    ar: Arith,
    coords: Seq<Seq<u32>>,
    k: int,
    a: int,
)
    requires
        coords.len() <= u32::MAX,
        0 <= a < coords.len(),
        0 <= k,
    ensures
        Set::new(|b: int| wiring::near(ar, coords, k, a, b)).finite(),
        Set::new(|b: int| wiring::near(ar, coords, k, a, b)).len() == if k <= coords.len() - 1 {
            k
        } else {
            coords.len() - 1
        },
{
    let n = coords.len() as int;
    let o = wiring::others(ar, coords, a, n);
    let r = sorting::ranked(o);
    lemma_others_hold(ar, coords, a, n);
    sorting::lemma_ranked(o);
    let m = if k <= n - 1 {
        k
    } else {
        n - 1
    };
    let picked = Seq::new(m as nat, |i: int| r[i].1 as int);
    assert forall|i: int, j: int| 0 <= i < m && 0 <= j < m && i != j implies picked[i]
        != picked[j] by {
        assert(r[i] != r[j]);
        assert(r.contains(r[i]) && r.contains(r[j]));
        let x = choose|x: int| 0 <= x < o.len() && o[x] == r[i];
        let y = choose|y: int| 0 <= y < o.len() && o[y] == r[j];
        assert(o[x].0 == order::position_key(euclid(ar, coords[a], coords[o[x].1 as int])));
        assert(o[y].0 == order::position_key(euclid(ar, coords[a], coords[o[y].1 as int])));
    }
    picked.unique_seq_to_set();
    let s = Set::new(|b: int| wiring::near(ar, coords, k, a, b));
    assert forall|b: int| s.contains(b) <==> picked.to_set().contains(b) by {
        if s.contains(b) {
            let i = choose|i: int| #[trigger] wiring::near_at(ar, coords, k, a, b, i);
            assert(picked[i] == b);
        }
        if picked.to_set().contains(b) {
            let i = choose|i: int| 0 <= i < picked.len() && picked[i] == b;
            assert(wiring::near_at(ar, coords, k, a, b, i));
        }
    }
    assert(s =~= picked.to_set());
}

/// The point halfway between `x` and `y`.
pub open spec fn halfway(ar: Arith, x: Seq<u32>, y: Seq<u32>) -> Seq<u32> {
    Seq::new(
        common(x, y),
        |j: int| ar(Op::Mul, 0x3f00_0000, ar(Op::Add, x[j], y[j], 0), 0),
    )
}

/// Two nodes are neighbours exactly if one of them picks the other and, where
/// midpoints are checked, the point halfway satisfies the predicate.
pub proof fn edges_join_nodes_that_pick_each_other(
    ar: Arith,
    p: Condition,
    records: Seq<(u64, Seq<u32>)>,
    k: int,
    check: bool,
    g: GraphView,
    a: int,
    b: int,
)
    requires
        wiring::connects(ar, p, records, k, check, g),
        0 <= a < g.n(),
        0 <= b < g.n(),
    ensures
        g.adj[a].contains(b as u32) <==> (wiring::near(ar, g.coords, k, a, b) && (check ==> p(
            halfway(ar, g.coords[a], g.coords[b]),
        ))) || (wiring::near(ar, g.coords, k, b, a) && (check ==> p(
            halfway(ar, g.coords[b], g.coords[a]),
        ))),
{
    assert(wiring::midpoint(ar, g.coords[a], g.coords[b]) =~= halfway(
        ar,
        g.coords[a],
        g.coords[b],
    ));
    assert(wiring::midpoint(ar, g.coords[b], g.coords[a]) =~= halfway(
        ar,
        g.coords[b],
        g.coords[a],
    ));
    assert(g.edge(a, b) <==> wiring::picks(ar, p, g.coords, k, check, a, b) || wiring::picks(
        ar,
        p,
        g.coords,
        k,
        check,
        b,
        a,
    ));
}

/// The labels of the neighbours of `a`, each as often as it occurs.
pub open spec fn around(g: GraphView, labels: Seq<u32>, a: int) -> Multiset<u32> {
    Seq::new(g.adj[a].len(), |i: int| labels[g.adj[a][i] as int]).to_multiset()
}

/// Nodes of one class have neighbours of the same classes, each as often; and
/// nodes that any labelling of that kind gives one label are of one class. So
/// no two nodes are told apart without need.
pub proof fn classes_tell_by_neighbours_alone(
    g: GraphView,
    cls: Seq<u32>,
    labels: Seq<u32>,
    a: int,
    b: int,
)
    requires
        classes::boundary(g, cls),
        0 <= a < g.n(),
        0 <= b < g.n(),
    ensures
        cls[a] == cls[b] <==> around(g, cls, a) == around(g, cls, b),
        labels.len() == g.n() && labels[a] == labels[b] && (forall|x: int, y: int|
            0 <= x < g.n() && 0 <= y < g.n() && #[trigger] labels[x] == #[trigger] labels[y]
                ==> around(g, labels, x) == around(g, labels, y)) ==> cls[a] == cls[b],
{
    lemma_met(g, cls, a);
    lemma_met(g, cls, b);
    if labels.len() == g.n() && labels[a] == labels[b] && (forall|x: int, y: int|
        0 <= x < g.n() && 0 <= y < g.n() && #[trigger] labels[x] == #[trigger] labels[y] ==> around(
            g,
            labels,
            x,
        ) == around(g, labels, y)) {
        assert forall|x: int, y: int|
            0 <= x < g.n() && 0 <= y < g.n() && #[trigger] labels[x]
                == #[trigger] labels[y] implies classes::met(g, labels, x) == classes::met(
            g,
            labels,
            y,
        ) by {
            lemma_met(g, labels, x);
            lemma_met(g, labels, y);
        }
        assert(classes::stable(g, labels));
        assert(classes::refines(labels, cls));
    }
}

proof fn lemma_met(g: GraphView, cls: Seq<u32>, a: int)
    ensures
        classes::met(g, cls, a) == around(g, cls, a),
{
    assert(classes::labels(cls, g.adj[a]) =~= Seq::new(
        g.adj[a].len(),
        |i: int| cls[g.adj[a][i] as int],
    ));
}

/// Classes are numbered in the order in which they first occur: a class that
/// occurs has every lower one before it.
pub proof fn classes_are_numbered_as_they_occur(g: GraphView, cls: Seq<u32>, i: int)
    requires
        classes::boundary(g, cls),
        0 <= i < cls.len(),
        cls[i] > 0,
    ensures
        exists|j: int| 0 <= j < i && #[trigger] cls[j] == cls[i] - 1,
{
    reveal(classes::canonical);
    assert(classes::numbered(cls, i));
    lemma_predecessor(cls, i, cls[i] - 1);
}

proof fn lemma_predecessor(s: Seq<u32>, n: int, c: int)
    requires
        0 <= n <= s.len(),
        0 <= c < classes::next_label(s, n),
        classes::canonical(s),
    ensures
        exists|j: int| 0 <= j < n && #[trigger] s[j] == c,
    decreases n,
{
    reveal(classes::canonical);
    assert(classes::numbered(s, n - 1));
    if c < classes::next_label(s, n - 1) {
        lemma_predecessor(s, n - 1, c);
        let j = choose|j: int| 0 <= j < n - 1 && #[trigger] s[j] == c;
        assert(s[j] == c);
    } else {
        assert(s[n - 1] == c);
    }
}

/// The numbers of neighbours that a walk has had to choose among, before it
/// leaves its `i`-th node and then.
pub open spec fn choices(g: GraphView, p: Seq<int>, i: int) -> Seq<u64> {
    Seq::new((i + 1) as nat, |j: int| g.adj[p[j]].len() as u64).filter(|n: u64| n > 0)
}

/// A random walk of `k` steps starts where it is told to and has `k` more
/// nodes. Each is a neighbour of the one before, the one that is drawn among
/// as many as there are; a walk stays where there is none.
pub proof fn walks_go_where_they_are_drawn(g: GraphView, start: int, seed: u64, k: int, i: int)
    requires
        0 <= i < k,
        g.wf(),
        roaming::stays_on(g, roaming::roamed(g, start, seed, k)),
    ensures
        ({
            let p = roaming::roamed(g, start, seed, k);
            &&& p.len() == k + 1
            &&& p[0] == start
            &&& g.adj[p[i]].len() == 0 ==> p[i + 1] == p[i]
            &&& g.adj[p[i]].len() > 0 ==> p[i + 1] == g.adj[p[i]][random::drawn(
                seed,
                choices(g, p, i),
            ) as int]
        }),
{
    lemma_roamed(g, start, seed, k, i);
    lemma_roamed(g, start, seed, k, i + 1);
    let p = roaming::roamed(g, start, seed, k);
    let before = roaming::roamed(g, start, seed, i);
    let after = roaming::roamed(g, start, seed, i + 1);
    assert(before[i] == p[i]);
    assert(after[i + 1] == p[i + 1]);
    assert forall|j: int| 0 <= j <= i implies 0 <= #[trigger] before[j] < g.n() by {
        assert(p[j] == before[j]);
    }
    lemma_choices(g, start, seed, i);
    if g.adj[p[i]].len() > 0 {
        let all = Seq::new((i + 1) as nat, |j: int| g.adj[p[j]].len() as u64);
        let some = Seq::new(i as nat, |j: int| g.adj[before[j]].len() as u64);
        assert(all.drop_last() =~= some) by {
            assert forall|j: int| 0 <= j < i implies all.drop_last()[j] == some[j] by {
                assert(p[j] == before[j]);
            }
        }
        reveal(Seq::filter);
        lemma_row_fits(g, p[i]);
        assert(all.last() == g.adj[p[i]].len() as u64);
    }
}

proof fn lemma_row_fits(g: GraphView, a: int)
    requires
        g.wf(),
        0 <= a < g.n(),
    ensures
        g.adj[a].len() <= u64::MAX,
{
    let row = g.adj[a];
    assert(sorting::increasing(row));
    if row.len() > 0 {
        lemma_climbs(row, row.len() - 1);
    }
}

proof fn lemma_climbs(s: Seq<u32>, i: int)
    requires
        sorting::increasing(s),
        0 <= i < s.len(),
    ensures
        s[i] >= i,
    decreases i,
{
    if i > 0 {
        lemma_climbs(s, i - 1);
        assert(s[i - 1] < s[i]);
    }
}

pub(crate) proof fn lemma_roamed(g: GraphView, start: int, seed: u64, k: int, i: int)
    requires
        0 <= i <= k,
    ensures
        roaming::roamed(g, start, seed, k).len() == k + 1,
        roaming::roamed(g, start, seed, k)[0] == start,
        roaming::roamed(g, start, seed, i).len() == i + 1,
        forall|j: int|
            0 <= j <= i ==> #[trigger] roaming::roamed(g, start, seed, k)[j] == roaming::roamed(
                g,
                start,
                seed,
                i,
            )[j],
    decreases k,
{
    if k > 0 {
        lemma_roamed(
            g,
            start,
            seed,
            k - 1,
            if i < k {
                i
            } else {
                k - 1
            },
        );
    }
}

proof fn lemma_choices(g: GraphView, start: int, seed: u64, k: int)
    requires
        0 <= k,
        g.wf(),
        forall|j: int| 0 <= j <= k ==> 0 <= #[trigger] roaming::roamed(g, start, seed, k)[j] < g.n(),
    ensures
        roaming::bounds(g, start, seed, k) == Seq::new(
            k as nat,
            |j: int| g.adj[roaming::roamed(g, start, seed, k)[j]].len() as u64,
        ).filter(|n: u64| n > 0),
    decreases k,
{
    reveal(Seq::filter);
    let p = roaming::roamed(g, start, seed, k);
    let all = Seq::new(k as nat, |j: int| g.adj[p[j]].len() as u64);
    if k > 0 {
        lemma_roamed(g, start, seed, k, k - 1);
        let q = roaming::roamed(g, start, seed, k - 1);
        assert forall|j: int| 0 <= j <= k - 1 implies 0 <= #[trigger] q[j] < g.n() by {
            assert(p[j] == q[j]);
        }
        lemma_choices(g, start, seed, k - 1);
        let some = Seq::new((k - 1) as nat, |j: int| g.adj[q[j]].len() as u64);
        assert(all.drop_last() =~= some);
        assert(q.last() == q[k - 1]);
        lemma_row_fits(g, q.last());
        assert(all.last() == g.adj[q.last()].len() as u64);
    } else {
        assert(all =~= Seq::<u64>::empty());
    }
}

proof fn lemma_degrees(g: GraphView, k: int)
    requires
        0 <= k <= g.adj.len(),
    ensures
        g.degrees(k) == g.adj.take(k).fold_left(0int, |sum: int, near: Seq<u32>| sum + near.len()),
    decreases k,
{
    let f = |sum: int, near: Seq<u32>| sum + near.len();
    if k > 0 {
        lemma_degrees(g, k - 1);
        assert(g.adj.take(k).drop_last() =~= g.adj.take(k - 1));
        assert(g.adj.take(k).last() == g.adj[k - 1]);
        assert(g.adj.take(k).fold_left(0int, f) == g.adj.take(k - 1).fold_left(0int, f) + g.adj[k
            - 1].len());
    } else {
        assert(g.adj.take(0) =~= Seq::<Seq<u32>>::empty());
    }
}

/// The degrees of all nodes add up to the number of all their neighbours.
pub proof fn degrees_add_up(g: GraphView)
    requires
        g.wf(),
    ensures
        g.degrees(g.n()) == g.adj.fold_left(0int, |sum: int, near: Seq<u32>| sum + near.len()),
{
    lemma_degrees(g, g.n());
    assert(g.adj.take(g.n()) =~= g.adj);
}

} // verus!
