//! k-means clustering.
//!
//! The centroids start at points drawn from the data. In each round every
//! point goes to its nearest centroid, and every centroid moves to the mean
//! of its points; one that has none moves to a point drawn from the data.

use vstd::prelude::*;

use crate::arith;
use crate::arith::Arith;
use crate::arith::Op;
use crate::order;
use crate::random;
use crate::random::Draws;
use crate::vectors;
use crate::vectors::rows;

verus! {

/// What the generator seeded with `seed` is asked for its first `t` draws
/// among `n` points.
pub open spec fn asked_times(n: u64, t: int) -> Seq<u64> {
    Seq::new(t as nat, |i: int| n)
}

/// The point that draw number `t` among `n` picks.
pub open spec fn pick(seed: u64, n: int, t: int) -> int {
    random::drawn(seed, asked_times(n as u64, t).push(n as u64)) as int
}

/// The nearest centroid of each point.
pub open spec fn assigned(ar: Arith, data: Seq<Seq<u32>>, centers: Seq<Seq<u32>>) -> Seq<int> {
    Seq::new(
        data.len(),
        |i: int| vectors::least(vectors::distances_from(ar, data[i], centers)),
    )
}

/// The number of the first `m` points that belong to `c`.
pub open spec fn members(assigned: Seq<int>, c: int, m: int) -> int
    decreases m,
{
    if m <= 0 {
        0
    } else if assigned[m - 1] == c {
        members(assigned, c, m - 1) + 1
    } else {
        members(assigned, c, m - 1)
    }
}

/// The sum of coordinate `d` over those of the first `m` points that belong
/// to `c`.
pub open spec fn sum_of(
    ar: Arith,
    data: Seq<Seq<u32>>,
    assigned: Seq<int>,
    c: int,
    d: int,
    m: int,
) -> u32
    decreases m,
{
    if m <= 0 {
        order::ZERO
    } else if assigned[m - 1] == c {
        ar(Op::Add, sum_of(ar, data, assigned, c, d, m - 1), data[m - 1][d], 0)
    } else {
        sum_of(ar, data, assigned, c, d, m - 1)
    }
}

/// The number of centroids below `c` that no point belongs to.
pub open spec fn idle(assigned: Seq<int>, c: int) -> int
    decreases c,
{
    if c <= 0 {
        0
    } else if members(assigned, c - 1, assigned.len() as int) == 0 {
        idle(assigned, c - 1) + 1
    } else {
        idle(assigned, c - 1)
    }
}

/// Where centroid `c`, now at `center`, moves in a round before which `t`
/// points had been drawn.
pub open spec fn moved(
    ar: Arith,
    data: Seq<Seq<u32>>,
    assigned: Seq<int>,
    seed: u64,
    t: int,
    c: int,
    center: Seq<u32>,
) -> Seq<u32> {
    let n = data.len() as int;
    if members(assigned, c, n) == 0 {
        data[pick(seed, n, t + idle(assigned, c))]
    } else {
        Seq::new(
            center.len(),
            |d: int|
                if d < data[0].len() {
                    ar(
                        Op::Div,
                        sum_of(ar, data, assigned, c, d, n),
                        arith::counted(ar, members(assigned, c, n)),
                        0,
                    )
                } else {
                    center[d]
                },
        )
    }
}

/// The centroids, and the number of points drawn so far.
pub struct Clusters {
    pub centers: Seq<Seq<u32>>,
    pub drawn: int,
}

/// The centroids to start with.
pub open spec fn initial(data: Seq<Seq<u32>>, k: int, seed: u64) -> Clusters {
    Clusters {
        centers: Seq::new(k as nat, |c: int| data[pick(seed, data.len() as int, c)]),
        drawn: k,
    }
}

/// One round.
pub open spec fn round(ar: Arith, data: Seq<Seq<u32>>, seed: u64, s: Clusters) -> Clusters {
    let a = assigned(ar, data, s.centers);
    Clusters {
        centers: Seq::new(
            s.centers.len(),
            |c: int| moved(ar, data, a, seed, s.drawn, c, s.centers[c]),
        ),
        drawn: s.drawn + idle(a, s.centers.len() as int),
    }
}

/// The state after `i` rounds.
pub open spec fn after_rounds(ar: Arith, data: Seq<Seq<u32>>, k: int, seed: u64, i: int) -> Clusters
    decreases i,
{
    if i <= 0 {
        initial(data, k, seed)
    } else {
        round(ar, data, seed, after_rounds(ar, data, k, seed, i - 1))
    }
}

/// The number of centroids: `k`, but no more than there are points, and at
/// least one.
pub open spec fn cluster_count(n: int, k: int) -> int {
    let most = if k <= n {
        k
    } else {
        n
    };
    if most >= 1 {
        most
    } else {
        1
    }
}

/// The centroids after `iterations` rounds, or one if that is zero.
pub open spec fn centroids_of(
    ar: Arith,
    data: Seq<Seq<u32>>,
    k: int,
    iterations: int,
    seed: u64,
) -> Seq<Seq<u32>> {
    after_rounds(
        ar,
        data,
        cluster_count(data.len() as int, k),
        seed,
        if iterations >= 1 {
            iterations
        } else {
            1
        },
    ).centers
}

/// There are points, and none has fewer coordinates than the first.
pub open spec fn usable(data: Seq<Seq<u32>>) -> bool {
    &&& data.len() > 0
    &&& forall|i: int| 0 <= i < data.len() ==> (#[trigger] data[i]).len() >= data[0].len()
}

/// All of `data` have `dim` coordinates.
pub open spec fn even(data: Seq<Seq<u32>>, dim: int) -> bool {
    forall|i: int| 0 <= i < data.len() ==> (#[trigger] data[i]).len() == dim
}

/// Draws a point.
fn draw_point(data: &Vec<Vec<u32>>, draws: &mut Draws, Ghost(t): Ghost<int>) -> (r: Vec<u32>)
    requires
        data@.len() > 0,
        t >= 0,
        old(draws).asked() == asked_times(data@.len() as u64, t),
    ensures
        final(draws).seed() == old(draws).seed(),
        final(draws).asked() == asked_times(data@.len() as u64, t + 1),
        0 <= pick(old(draws).seed(), data@.len() as int, t) < data@.len(),
        r@ == data@[pick(old(draws).seed(), data@.len() as int, t)]@,
{
    let n: u64 = data.len() as u64;
    let i: u64 = draws.below(n);
    assert(draws.asked() =~= asked_times(n, t + 1));
    vectors::copy(&data[i as usize])
}

/// Rounds keep the number of centroids.
pub(crate) proof fn lemma_center_count(ar: Arith, data: Seq<Seq<u32>>, k: int, seed: u64, i: int)
    requires
        k >= 0,
    ensures
        after_rounds(ar, data, k, seed, i).centers.len() == k,
    decreases i,
{
    if i > 0 {
        lemma_center_count(ar, data, k, seed, i - 1);
    }
}

/// The nearest centroid of each point.
pub(crate) fn assign<F: Fn(Op, u32, u32, u32) -> u32>(fpu: &F, data: &Vec<Vec<u32>>, centers: &Vec<Vec<u32>>) -> (r:
    Vec<usize>)
    requires
        arith::is_unit(*fpu),
        centers@.len() > 0,
    ensures
        r@.len() == data@.len(),
        forall|i: int|
            0 <= i < r@.len() ==> (#[trigger] r@[i]) as int == assigned(
                arith::arith(*fpu),
                rows(data@),
                rows(centers@),
            )[i] && r@[i] < centers@.len(),
{
    let ghost target = assigned(arith::arith(*fpu), rows(data@), rows(centers@));
    let mut r: Vec<usize> = Vec::new();
    let mut i: usize = 0;
    while i < data.len()
        invariant
            i <= data@.len(),
            arith::is_unit(*fpu),
            centers@.len() > 0,
            target == assigned(arith::arith(*fpu), rows(data@), rows(centers@)),
            r@.len() == i,
            forall|j: int|
                0 <= j < i ==> (#[trigger] r@[j]) as int == target[j] && r@[j] < centers@.len(),
        decreases data@.len() - i,
    {
        assert(rows(data@)[i as int] == data@[i as int]@);
        let d: Vec<u32> = vectors::measure_from(fpu, &data[i], centers);
        r.push(vectors::find_least(&d));
        i += 1;
    }
    r
}

/// The number of points that belong to `c`.
fn count_members(assignment: &Vec<usize>, c: usize, Ghost(a): Ghost<Seq<int>>) -> (r: usize)
    requires
        a.len() == assignment@.len(),
        forall|i: int| 0 <= i < a.len() ==> (#[trigger] assignment@[i]) as int == a[i],
    ensures
        r == members(a, c as int, a.len() as int),
{
    let mut r: usize = 0;
    let mut i: usize = 0;
    while i < assignment.len()
        invariant
            i <= assignment@.len(),
            r <= i,
            a.len() == assignment@.len(),
            forall|i: int| 0 <= i < a.len() ==> (#[trigger] assignment@[i]) as int == a[i],
            r == members(a, c as int, i as int),
        decreases assignment@.len() - i,
    {
        if assignment[i] == c {
            r += 1;
        }
        i += 1;
    }
    r
}

/// The sum of coordinate `d` over the points that belong to `c`.
fn sum_members<F: Fn(Op, u32, u32, u32) -> u32>(
    fpu: &F,
    data: &Vec<Vec<u32>>,
    assignment: &Vec<usize>,
    c: usize,
    d: usize,
    Ghost(a): Ghost<Seq<int>>,
) -> (r: u32)
    requires
        arith::is_unit(*fpu),
        a.len() == assignment@.len(),
        data@.len() == a.len(),
        usable(rows(data@)),
        d < data@[0]@.len(),
        forall|i: int| 0 <= i < a.len() ==> (#[trigger] assignment@[i]) as int == a[i],
    ensures
        r == sum_of(arith::arith(*fpu), rows(data@), a, c as int, d as int, a.len() as int),
{
    let mut r: u32 = order::ZERO;
    let mut i: usize = 0;
    assert(rows(data@)[0] == data@[0]@);
    while i < assignment.len()
        invariant
            i <= assignment@.len(),
            arith::is_unit(*fpu),
            a.len() == assignment@.len(),
            data@.len() == a.len(),
            usable(rows(data@)),
            d < rows(data@)[0].len(),
            forall|i: int| 0 <= i < a.len() ==> (#[trigger] assignment@[i]) as int == a[i],
            r == sum_of(arith::arith(*fpu), rows(data@), a, c as int, d as int, i as int),
        decreases assignment@.len() - i,
    {
        if assignment[i] == c {
            assert(rows(data@)[i as int] == data@[i as int]@);
            r = arith::binary(fpu, Op::Add, r, data[i][d]);
        }
        i += 1;
    }
    r
}

/// Where the centroid `c` with members moves.
fn mean<F: Fn(Op, u32, u32, u32) -> u32>(
    fpu: &F,
    data: &Vec<Vec<u32>>,
    assignment: &Vec<usize>,
    c: usize,
    count: usize,
    center: &Vec<u32>,
    Ghost(a): Ghost<Seq<int>>,
    Ghost(seed): Ghost<u64>,
    Ghost(t): Ghost<int>,
) -> (r: Vec<u32>)
    requires
        arith::is_unit(*fpu),
        a.len() == assignment@.len(),
        data@.len() == a.len(),
        usable(rows(data@)),
        forall|i: int| 0 <= i < a.len() ==> (#[trigger] assignment@[i]) as int == a[i],
        count == members(a, c as int, a.len() as int),
        count > 0,
    ensures
        r@ == moved(arith::arith(*fpu), rows(data@), a, seed, t, c as int, center@),
{
    let ghost target = moved(arith::arith(*fpu), rows(data@), a, seed, t, c as int, center@);
    let dim: usize = data[0].len();
    let divisor: u32 = arith::count(fpu, count);
    let mut r: Vec<u32> = Vec::new();
    let mut d: usize = 0;
    assert(rows(data@)[0] == data@[0]@);
    while d < center.len()
        invariant
            d <= center@.len(),
            dim == data@[0]@.len(),
            rows(data@)[0] == data@[0]@,
            arith::is_unit(*fpu),
            a.len() == assignment@.len(),
            data@.len() == a.len(),
            usable(rows(data@)),
            forall|i: int| 0 <= i < a.len() ==> (#[trigger] assignment@[i]) as int == a[i],
            divisor == arith::counted(
                arith::arith(*fpu),
                members(a, c as int, a.len() as int),
            ),
            members(a, c as int, a.len() as int) > 0,
            target == moved(arith::arith(*fpu), rows(data@), a, seed, t, c as int, center@),
            r@.len() == d,
            forall|i: int| 0 <= i < d ==> #[trigger] r@[i] == target[i],
        decreases center@.len() - d,
    {
        if d < dim {
            let sum: u32 = sum_members(fpu, data, assignment, c, d, Ghost(a));
            r.push(arith::binary(fpu, Op::Div, sum, divisor));
        } else {
            r.push(center[d]);
        }
        d += 1;
    }
    assert(r@ =~= target);
    r
}

/// One round.
fn relocate<F: Fn(Op, u32, u32, u32) -> u32>(
    fpu: &F,
    data: &Vec<Vec<u32>>,
    centers: &Vec<Vec<u32>>,
    draws: &mut Draws,
    Ghost(t): Ghost<int>,
) -> (r: Vec<Vec<u32>>)
    requires
        arith::is_unit(*fpu),
        usable(rows(data@)),
        centers@.len() > 0,
        t >= 0,
        old(draws).asked() == asked_times(data@.len() as u64, t),
    ensures
        final(draws).seed() == old(draws).seed(),
        ({
            let before = Clusters { centers: rows(centers@), drawn: t };
            let after = round(arith::arith(*fpu), rows(data@), old(draws).seed(), before);
            &&& rows(r@) == after.centers
            &&& final(draws).asked() == asked_times(data@.len() as u64, after.drawn)
            &&& after.drawn >= t
        }),
        forall|dim: int|
            even(rows(data@), dim) && even(rows(centers@), dim) ==> #[trigger] even(rows(r@), dim),
{
    let ghost seed = draws.seed();
    let ghost ar = arith::arith(*fpu);
    let ghost before = Clusters { centers: rows(centers@), drawn: t };
    let ghost a = assigned(ar, rows(data@), rows(centers@));
    let ghost target = round(ar, rows(data@), seed, before).centers;
    let assignment: Vec<usize> = assign(fpu, data, centers);
    let mut r: Vec<Vec<u32>> = Vec::new();
    let mut c: usize = 0;
    while c < centers.len()
        invariant
            c <= centers@.len(),
            arith::is_unit(*fpu),
            ar == arith::arith(*fpu),
            usable(rows(data@)),
            t >= 0,
            before == (Clusters { centers: rows(centers@), drawn: t }),
            a == assigned(ar, rows(data@), rows(centers@)),
            target == round(ar, rows(data@), seed, before).centers,
            a.len() == data@.len(),
            assignment@.len() == data@.len(),
            forall|i: int| 0 <= i < a.len() ==> (#[trigger] assignment@[i]) as int == a[i],
            draws.seed() == seed,
            idle(a, c as int) >= 0,
            draws.asked() == asked_times(data@.len() as u64, t + idle(a, c as int)),
            r@.len() == c,
            forall|i: int| 0 <= i < c ==> (#[trigger] r@[i])@ == target[i],
            forall|dim: int|
                even(rows(data@), dim) && even(rows(centers@), dim) ==> #[trigger] even(
                    rows(r@),
                    dim,
                ),
        decreases centers@.len() - c,
    {
        let ghost so_far = rows(r@);
        let count: usize = count_members(&assignment, c, Ghost(a));
        assert(rows(centers@)[c as int] == centers@[c as int]@);
        if count == 0 {
            let point: Vec<u32> = draw_point(data, draws, Ghost(t + idle(a, c as int)));
            r.push(point);
        } else {
            let center: Vec<u32> = mean(
                fpu,
                data,
                &assignment,
                c,
                count,
                &centers[c],
                Ghost(a),
                Ghost(seed),
                Ghost(t),
            );
            r.push(center);
        }
        proof {
            assert forall|dim: int|
                even(rows(data@), dim) && even(rows(centers@), dim) implies #[trigger] even(
                rows(r@),
                dim,
            ) by {
                assert(even(so_far, dim));
                assert(rows(r@) =~= so_far.push(r@[c as int]@));
                if count == 0 {
                    let p = pick(seed, data@.len() as int, t + idle(a, c as int));
                    assert(rows(data@)[p] == r@[c as int]@);
                } else {
                    assert(rows(centers@)[c as int].len() == dim);
                }
            }
        }
        c += 1;
    }
    assert(rows(r@) =~= target);
    r
}

/// Clusters `data` around at most `k` centroids.
pub fn kmeans<F: Fn(Op, u32, u32, u32) -> u32>(
    fpu: &F,
    data: &Vec<Vec<u32>>,
    k: usize,
    iterations: usize,
    seed: u64,
) -> (r: Vec<Vec<u32>>)
    requires
        arith::is_unit(*fpu),
        usable(rows(data@)),
    ensures
        rows(r@) == centroids_of(
            arith::arith(*fpu),
            rows(data@),
            k as int,
            iterations as int,
            seed,
        ),
        r@.len() == cluster_count(data@.len() as int, k as int),
        forall|dim: int| even(rows(data@), dim) ==> #[trigger] even(rows(r@), dim),
{
    let ghost ar = arith::arith(*fpu);
    let n: usize = data.len();
    let most: usize = if k <= n {
        k
    } else {
        n
    };
    let m: usize = if most >= 1 {
        most
    } else {
        1
    };
    let rounds: usize = if iterations >= 1 {
        iterations
    } else {
        1
    };
    let mut draws: Draws = Draws::seeded(seed);
    let mut centers: Vec<Vec<u32>> = Vec::new();
    assert(draws.asked() =~= asked_times(n as u64, 0));
    while centers.len() < m
        invariant
            n == data@.len(),
            n > 0,
            centers@.len() <= m,
            draws.seed() == seed,
            draws.asked() == asked_times(n as u64, centers@.len() as int),
            forall|c: int|
                0 <= c < centers@.len() ==> (#[trigger] centers@[c])@ == initial(
                    rows(data@),
                    m as int,
                    seed,
                ).centers[c],
            forall|dim: int| even(rows(data@), dim) ==> #[trigger] even(rows(centers@), dim),
        decreases m - centers@.len(),
    {
        let ghost so_far = rows(centers@);
        let ghost t = centers@.len() as int;
        let point: Vec<u32> = draw_point(data, &mut draws, Ghost(t));
        centers.push(point);
        proof {
            assert forall|dim: int| even(rows(data@), dim) implies #[trigger] even(
                rows(centers@),
                dim,
            ) by {
                assert(even(so_far, dim));
                assert(rows(centers@) =~= so_far.push(point@));
                assert(rows(data@)[pick(seed, n as int, t)] == point@);
            }
        }
    }
    let ghost mut state = initial(rows(data@), m as int, seed);
    assert(rows(centers@) =~= state.centers);
    let mut i: usize = 0;
    while i < rounds
        invariant
            i <= rounds,
            arith::is_unit(*fpu),
            ar == arith::arith(*fpu),
            usable(rows(data@)),
            m > 0,
            state == after_rounds(ar, rows(data@), m as int, seed, i as int),
            state.centers == rows(centers@),
            state.drawn >= 0,
            state.centers.len() == m,
            draws.seed() == seed,
            draws.asked() == asked_times(data@.len() as u64, state.drawn),
            forall|dim: int| even(rows(data@), dim) ==> #[trigger] even(rows(centers@), dim),
        decreases rounds - i,
    {
        centers = relocate(fpu, data, &centers, &mut draws, Ghost(state.drawn));
        proof {
            state = round(ar, rows(data@), seed, state);
        }
        i += 1;
    }
    centers
}

} // verus!
