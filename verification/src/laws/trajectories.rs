//! The geometry of paths that may leave the graph.

use vstd::prelude::*;

use super::euclid;
use super::graphs;
use super::lemma_total_push;
use super::magnitude;
use super::measures;
use super::number;
use super::total;
use crate::arith::Arith;
use crate::arith::Op;
use crate::manifold::graph::GraphView;
use crate::order;
use crate::trajectory;

verus! {

/// Whether the step from the `i`-th record of a path to the next stays in the
/// graph.
pub open spec fn inside(g: GraphView, path: Seq<u64>, i: int) -> bool {
    g.ids.contains(path[i]) && g.ids.contains(path[i + 1])
}

/// Those of the first `n` steps of a path that stay in the graph.
pub open spec fn steps_inside(g: GraphView, path: Seq<u64>, n: nat) -> Seq<int> {
    Seq::new(n, |i: int| i).filter(|i: int| inside(g, path, i))
}

/// Whether the path turns at its `i`-th record: it is there between two steps
/// inside, neither of which is all but zero.
pub open spec fn bends(ar: Arith, g: GraphView, path: Seq<u64>, i: int) -> bool {
    let points = graphs::record_places(g, path);
    &&& i >= 1
    &&& inside(g, path, i - 1)
    &&& inside(g, path, i)
    &&& order::lt(0x3400_0000, magnitude(ar, graphs::leg(ar, points, i - 1)))
    &&& order::lt(0x3400_0000, euclid(ar, points[i], points[i + 1]))
}

/// The places among the first `n` at which the path turns.
pub open spec fn bends_inside(ar: Arith, g: GraphView, path: Seq<u64>, n: nat) -> Seq<int> {
    Seq::new(n, |i: int| i).filter(|i: int| bends(ar, g, path, i))
}

/// The lengths of the steps `at`.
pub open spec fn sizes(ar: Arith, g: GraphView, path: Seq<u64>, at: Seq<int>) -> Seq<u32> {
    let points = graphs::record_places(g, path);
    Seq::new(at.len(), |k: int| euclid(ar, points[at[k]], points[at[k] + 1]))
}

/// The angles of the turns `at`.
pub open spec fn angles(ar: Arith, g: GraphView, path: Seq<u64>, at: Seq<int>) -> Seq<u32> {
    let points = graphs::record_places(g, path);
    Seq::new(at.len(), |k: int| graphs::turn(ar, points, at[k] - 1))
}

proof fn lemma_filters(ar: Arith, g: GraphView, path: Seq<u64>, n: nat)
    requires
        n > 0,
    ensures
        steps_inside(g, path, n) == if inside(g, path, n - 1) {
            steps_inside(g, path, (n - 1) as nat).push(n - 1)
        } else {
            steps_inside(g, path, (n - 1) as nat)
        },
        bends_inside(ar, g, path, n) == if bends(ar, g, path, n - 1) {
            bends_inside(ar, g, path, (n - 1) as nat).push(n - 1)
        } else {
            bends_inside(ar, g, path, (n - 1) as nat)
        },
{
    reveal(Seq::filter);
    let all = Seq::new(n, |i: int| i);
    assert(all.drop_last() =~= Seq::new((n - 1) as nat, |i: int| i));
    assert(all.last() == n - 1);
}

proof fn lemma_no_filters(ar: Arith, g: GraphView, path: Seq<u64>)
    ensures
        steps_inside(g, path, 0) == Seq::<int>::empty(),
        bends_inside(ar, g, path, 0) == Seq::<int>::empty(),
{
    reveal(Seq::filter);
}

proof fn lemma_tour(ar: Arith, g: GraphView, path: Seq<u64>, n: int)
    requires
        0 <= n < path.len(),
    ensures
        ({
            let t = trajectory::toured(ar, g, path, n);
            let steps = steps_inside(g, path, n as nat);
            let turns = bends_inside(ar, g, path, n as nat);
            &&& t.steps == steps.len()
            &&& t.turns == turns.len()
            &&& t.length == total(ar, sizes(ar, g, path, steps))
            &&& t.angles == total(ar, angles(ar, g, path, turns))
            &&& t.last == if n > 0 && inside(g, path, n - 1) {
                Some(graphs::leg(ar, graphs::record_places(g, path), n - 1))
            } else {
                None
            }
        }),
    decreases n,
{
    let points = graphs::record_places(g, path);
    let steps = steps_inside(g, path, n as nat);
    let turns = bends_inside(ar, g, path, n as nat);
    if n > 0 {
        lemma_tour(ar, g, path, n - 1);
        lemma_filters(ar, g, path, n as nat);
        let steps0 = steps_inside(g, path, (n - 1) as nat);
        let turns0 = bends_inside(ar, g, path, (n - 1) as nat);
        let before = trajectory::toured(ar, g, path, n - 1);
        if inside(g, path, n - 1) {
            let from = points[n - 1];
            let to = points[n];
            let last = graphs::leg(ar, points, n - 1);
            assert(trajectory::displacement(ar, from, to) =~= last);
            measures::distances_are_euclidean(ar, from, to);
            assert(sizes(ar, g, path, steps) =~= sizes(ar, g, path, steps0).push(
                euclid(ar, from, to),
            ));
            lemma_total_push(ar, sizes(ar, g, path, steps0), euclid(ar, from, to));
            if n > 1 && inside(g, path, n - 2) {
                let first = graphs::leg(ar, points, n - 2);
                measures::lengths_are_euclidean(ar, first);
                measures::similarities_are_cosines(ar, first, last);
            }
            if bends(ar, g, path, n - 1) {
                let x = graphs::turn(ar, points, n - 2);
                assert(angles(ar, g, path, turns) =~= angles(ar, g, path, turns0).push(x));
                lemma_total_push(ar, angles(ar, g, path, turns0), x);
            }
        }
    } else {
        lemma_no_filters(ar, g, path);
        assert(sizes(ar, g, path, steps) =~= Seq::<u32>::empty());
        assert(angles(ar, g, path, turns) =~= Seq::<u32>::empty());
    }
}

/// The geometry of any path: its steps are those inside the graph; its length is
/// the sum of their Euclidean lengths; its curvature is the mean of the angles
/// at which it turns, or zero if it never does. A path without steps inside has
/// nothing but zeros.
pub proof fn geometry_counts_what_is_inside(ar: Arith, g: GraphView, path: Seq<u64>)
    requires
        path.len() <= usize::MAX,
    ensures
        ({
            let r = trajectory::geometry(ar, g, path);
            let n = (if path.len() > 0 {
                path.len() - 1
            } else {
                0
            }) as nat;
            let steps = steps_inside(g, path, n);
            let turns = bends_inside(ar, g, path, n);
            &&& r.n_steps == steps.len()
            &&& steps.len() == 0 ==> r.length == 0 && r.mean_curvature == 0
                && r.min_adjacent_cosine == 0
            &&& steps.len() > 0 ==> r.length == total(ar, sizes(ar, g, path, steps))
            &&& steps.len() > 0 && turns.len() == 0 ==> r.mean_curvature == 0
            &&& steps.len() > 0 && turns.len() > 0 ==> r.mean_curvature == ar(
                Op::Div,
                total(ar, angles(ar, g, path, turns)),
                number(ar, turns.len() as int),
                0,
            )
        }),
{
    if path.len() >= 2 {
        let n = path.len() - 1;
        lemma_tour(ar, g, path, n);
        lemma_few_steps(g, path, n as nat);
    } else {
        lemma_no_filters(ar, g, path);
    }
}

proof fn lemma_few_steps(g: GraphView, path: Seq<u64>, n: nat)
    ensures
        steps_inside(g, path, n).len() <= n,
{
    Seq::new(n, |i: int| i).lemma_filter_len(|i: int| inside(g, path, i));
}

proof fn lemma_least(ar: Arith, g: GraphView, path: Seq<u64>, n: int)
    requires
        0 <= n < path.len(),
    ensures
        ({
            let least = trajectory::toured(ar, g, path, n).least_cosine;
            &&& !order::nan(least)
            &&& !order::lt(0x3f80_0000, least)
            &&& forall|i: int|
                0 <= i < n && inside(g, path, i) ==> !order::lt(
                    #[trigger] graphs::bend(ar, g, path, i),
                    least,
                )
            &&& least == 0x3f80_0000 || exists|i: int|
                0 <= i < n && inside(g, path, i) && least == #[trigger] graphs::bend(
                    ar,
                    g,
                    path,
                    i,
                )
        }),
    decreases n,
{
    if n > 0 {
        lemma_least(ar, g, path, n - 1);
        measures::similarities_are_cosines(
            ar,
            g.coords[g.node(path[n - 1])],
            g.coords[g.node(path[n])],
        );
        let before = trajectory::toured(ar, g, path, n - 1).least_cosine;
        let least = trajectory::toured(ar, g, path, n).least_cosine;
        let last = graphs::bend(ar, g, path, n - 1);
        if inside(g, path, n - 1) && order::lt(last, before) {
            assert(graphs::bend(ar, g, path, n - 1) == least);
        } else if least != 0x3f80_0000 {
            let i = choose|i: int|
                0 <= i < n - 1 && inside(g, path, i) && before == #[trigger] graphs::bend(
                    ar,
                    g,
                    path,
                    i,
                );
            assert(graphs::bend(ar, g, path, i) == least);
        }
    }
}

/// The least cosine of a path with a step inside the graph is that of one of
/// these steps, or one, and none of them has a smaller one.
pub proof fn least_cosines_are_of_steps_inside(ar: Arith, g: GraphView, path: Seq<u64>)
    requires
        2 <= path.len() <= usize::MAX,
        steps_inside(g, path, (path.len() - 1) as nat).len() > 0,
    ensures
        ({
            let least = trajectory::geometry(ar, g, path).min_adjacent_cosine;
            &&& forall|i: int|
                0 <= i < path.len() - 1 && inside(g, path, i) ==> !order::lt(
                    #[trigger] graphs::bend(ar, g, path, i),
                    least,
                )
            &&& !order::lt(0x3f80_0000, least)
            &&& least == 0x3f80_0000 || exists|i: int|
                0 <= i < path.len() - 1 && inside(g, path, i) && least == #[trigger] graphs::bend(
                    ar,
                    g,
                    path,
                    i,
                )
        }),
{
    let n = path.len() - 1;
    lemma_least(ar, g, path, n);
    lemma_tour(ar, g, path, n);
}

/// Paths that differ in length, are empty or leave the graph are not compared:
/// the answer is zeros and no onset.
pub proof fn only_paths_inside_are_compared(
    ar: Arith,
    g: GraphView,
    a: Seq<u64>,
    b: Seq<u64>,
    i: int,
)
    requires
        a.len() != b.len() || a.len() == 0 || (0 <= i < a.len() && !g.ids.contains(a[i])) || (0 <= i
            < b.len() && !g.ids.contains(b[i])),
    ensures
        trajectory::bifurcation(ar, g, a, b).separation_ratio == 0,
        trajectory::bifurcation(ar, g, a, b).onset_step is None,
        trajectory::bifurcation(ar, g, a, b).final_separation == 0,
{
    if a.len() == b.len() && 0 <= i < a.len() {
        assert(g.has(a[i]) == g.ids.contains(a[i]));
        assert(g.has(b[i]) == g.ids.contains(b[i]));
    }
}

} // verus!
