//! The geometry of paths through a graph.

use vstd::prelude::*;

use crate::arith;
use crate::arith::Arith;
use crate::arith::Op;
use crate::manifold::graph::GraphView;
use crate::manifold::graph::ViableGraph;
use crate::order;
use crate::superpose;
use crate::vectors;

verus! {

/// The bit pattern of the distance from one to the next number.
pub const EPSILON: u32 = 0x3400_0000;

/// The bit pattern of `-1.0`.
pub const MINUS_ONE: u32 = 0xbf80_0000;

/// The bit pattern of `1e-8`: points that are nearer count as one.
pub const TOGETHER: u32 = 0x322b_cc77;

/// The bit pattern of `1.5`: by how much paths have to part.
pub const PARTED: u32 = 0x3fc0_0000;

/// Measurements of a path.
#[derive(Clone, Copy, Debug, PartialEq, Eq, Structural)]
pub struct PathGeometry {
    /// The sum of the distances of the steps.
    pub length: u32,
    /// The mean of the angles between steps that follow each other.
    pub mean_curvature: u32,
    /// The least cosine of the angle between a step's two ends.
    pub min_adjacent_cosine: u32,
    /// The number of steps between nodes of the graph.
    pub n_steps: usize,
}

impl Default for PathGeometry {
    fn default() -> (r: Self)
        ensures
            r == no_geometry(),
    {
        PathGeometry {
            length: order::ZERO,
            mean_curvature: order::ZERO,
            min_adjacent_cosine: order::ZERO,
            n_steps: 0,
        }
    }
}

/// The measurements of a path without steps.
pub open spec fn no_geometry() -> PathGeometry {
    PathGeometry {
        length: order::ZERO,
        mean_curvature: order::ZERO,
        min_adjacent_cosine: order::ZERO,
        n_steps: 0,
    }
}

/// How two paths part.
#[derive(Clone, Copy, Debug, PartialEq, Eq)]
pub struct BifurcationResult {
    /// The last distance in relation to the first.
    pub separation_ratio: u32,
    /// The first step at which the paths are half as far apart again as at
    /// the start.
    pub onset_step: Option<usize>,
    /// The last distance.
    pub final_separation: u32,
}

impl Default for BifurcationResult {
    fn default() -> (r: Self)
        ensures
            r == no_bifurcation(),
    {
        BifurcationResult {
            separation_ratio: order::ZERO,
            onset_step: None,
            final_separation: order::ZERO,
        }
    }
}

/// What is said of paths that cannot be compared.
pub open spec fn no_bifurcation() -> BifurcationResult {
    BifurcationResult {
        separation_ratio: order::ZERO,
        onset_step: None,
        final_separation: order::ZERO,
    }
}

/// The coordinates of a record that is a node.
pub open spec fn place(g: GraphView, id: u64) -> Option<Seq<u32>> {
    if g.has(id) {
        Some(g.coords[g.node(id)])
    } else {
        None
    }
}

/// The step from `a` to `b`.
pub open spec fn displacement(ar: Arith, a: Seq<u32>, b: Seq<u32>) -> Seq<u32> {
    Seq::new(
        vectors::shorter(a.len() as int, b.len() as int) as nat,
        |i: int| ar(Op::Sub, b[i], a[i], 0),
    )
}

/// The angle between two steps.
pub open spec fn turning_angle(ar: Arith, a: Seq<u32>, b: Seq<u32>) -> u32 {
    ar(Op::Acos, order::clamped(superpose::cosine(ar, a, b), MINUS_ONE, order::ONE), 0, 0)
}

/// What has been measured of a path so far.
pub struct Tour {
    pub length: u32,
    pub least_cosine: u32,
    pub angles: u32,
    pub turns: int,
    pub steps: int,
    /// The last step, unless a gap came after it.
    pub last: Option<Seq<u32>>,
}

/// Before the first step.
pub open spec fn departure() -> Tour {
    Tour {
        length: order::ZERO,
        least_cosine: order::ONE,
        angles: order::ZERO,
        turns: 0,
        steps: 0,
        last: None,
    }
}

/// Whether the angle between the last step and one of the length `size`
/// counts: both have to be long enough to have a direction.
pub open spec fn turns_at(ar: Arith, t: Tour, size: u32) -> bool {
    t.last is Some && order::lt(EPSILON, vectors::length(ar, t.last->0)) && order::lt(EPSILON, size)
}

/// After a step from `a` to `b`; a gap if one of them is not a node.
pub open spec fn stepped(ar: Arith, t: Tour, a: Option<Seq<u32>>, b: Option<Seq<u32>>) -> Tour {
    if a is None || b is None {
        Tour { last: None, ..t }
    } else {
        let from = a->0;
        let to = b->0;
        let size = vectors::distance(ar, from, to);
        let cosine = superpose::cosine(ar, from, to);
        let step = displacement(ar, from, to);
        Tour {
            length: ar(Op::Add, t.length, size, 0),
            least_cosine: if order::lt(cosine, t.least_cosine) {
                cosine
            } else {
                t.least_cosine
            },
            angles: if turns_at(ar, t, size) {
                ar(Op::Add, t.angles, turning_angle(ar, t.last->0, step), 0)
            } else {
                t.angles
            },
            turns: if turns_at(ar, t, size) {
                t.turns + 1
            } else {
                t.turns
            },
            steps: t.steps + 1,
            last: Some(step),
        }
    }
}

/// After the first `n` steps of `path`.
pub open spec fn toured(ar: Arith, g: GraphView, path: Seq<u64>, n: int) -> Tour
    decreases n,
{
    if n <= 0 {
        departure()
    } else {
        stepped(
            ar,
            toured(ar, g, path, n - 1),
            place(g, path[n - 1]),
            place(g, path[n]),
        )
    }
}

/// The measurements of `path`.
pub open spec fn geometry(ar: Arith, g: GraphView, path: Seq<u64>) -> PathGeometry {
    let t = toured(ar, g, path, path.len() - 1);
    if path.len() < 2 || t.steps == 0 {
        no_geometry()
    } else {
        PathGeometry {
            length: t.length,
            mean_curvature: if t.turns > 0 {
                ar(Op::Div, t.angles, arith::counted(ar, t.turns), 0)
            } else {
                order::ZERO
            },
            min_adjacent_cosine: t.least_cosine,
            n_steps: t.steps as usize,
        }
    }
}

fn displace<F: Fn(Op, u32, u32, u32) -> u32>(fpu: &F, a: &Vec<u32>, b: &Vec<u32>) -> (r: Vec<u32>)
    requires
        arith::is_unit(*fpu),
    ensures
        r@ == displacement(arith::arith(*fpu), a@, b@),
{
    let ghost target = displacement(arith::arith(*fpu), a@, b@);
    let mut r: Vec<u32> = Vec::new();
    let mut i: usize = 0;
    while i < a.len() && i < b.len()
        invariant
            i <= a@.len(),
            i <= b@.len(),
            arith::is_unit(*fpu),
            target == displacement(arith::arith(*fpu), a@, b@),
            r@.len() == i,
            forall|j: int| 0 <= j < i ==> #[trigger] r@[j] == target[j],
        decreases a@.len() - i,
    {
        r.push(arith::binary(fpu, Op::Sub, b[i], a[i]));
        i += 1;
    }
    assert(r@ =~= target);
    r
}

/// Measures a path: the sum of its steps, how much it turns, and where its
/// direction changes most. Ids that are not nodes are left out.
pub fn path_geometry<F: Fn(Op, u32, u32, u32) -> u32>(fpu: &F, graph: &ViableGraph, path: &[u64]) -> (r:
    PathGeometry)
    requires
        arith::is_unit(*fpu),
    ensures
        r == geometry(arith::arith(*fpu), graph@, path@),
{
    if path.len() < 2 {
        return PathGeometry::default();
    }
    let ghost ar = arith::arith(*fpu);
    let ghost g = graph@;
    let mut length: u32 = order::ZERO;
    let mut least_cosine: u32 = order::ONE;
    let mut angles: u32 = order::ZERO;
    let mut turns: usize = 0;
    let mut steps: usize = 0;
    let mut last: Option<Vec<u32>> = None;
    let mut n: usize = 0;
    let count: usize = path.len();
    while n < count - 1
        invariant
            count == path@.len(),
            count >= 2,
            n <= count - 1,
            arith::is_unit(*fpu),
            ar == arith::arith(*fpu),
            g == graph@,
            turns <= n,
            steps <= n,
            ({
                let t = toured(ar, g, path@, n as int);
                &&& length == t.length
                &&& least_cosine == t.least_cosine
                &&& angles == t.angles
                &&& turns == t.turns
                &&& steps == t.steps
                &&& last is Some <==> t.last is Some
                &&& last is Some ==> last->0@ == t.last->0
            }),
        decreases count - n,
    {
        let ghost t = toured(ar, g, path@, n as int);
        match (graph.coords_of(path[n]), graph.coords_of(path[n + 1])) {
            (Some(from), Some(to)) => {
                let step: Vec<u32> = displace(fpu, from, to);
                let size: u32 = vectors::euclidean(fpu, from, to);
                length = arith::binary(fpu, Op::Add, length, size);
                steps += 1;
                let cosine: u32 = superpose::cosine_sim(fpu, from, to);
                if order::less(cosine, least_cosine) {
                    least_cosine = cosine;
                }
                if let Some(before) = &last {
                    let size_before: u32 = vectors::norm(fpu, before);
                    if order::less(EPSILON, size_before) && order::less(EPSILON, size) {
                        let between: u32 = superpose::cosine_sim(fpu, before, &step);
                        let angle: u32 = arith::unary(
                            fpu,
                            Op::Acos,
                            order::clamp(between, MINUS_ONE, order::ONE),
                        );
                        angles = arith::binary(fpu, Op::Add, angles, angle);
                        turns += 1;
                    }
                }
                last = Some(step);
            },
            _ => {
                last = None;
            },
        }
        n += 1;
    }
    if steps == 0 {
        return PathGeometry::default();
    }
    let mean_curvature: u32 = if turns > 0 {
        arith::binary(fpu, Op::Div, angles, arith::count(fpu, turns))
    } else {
        order::ZERO
    };
    PathGeometry { length, mean_curvature, min_adjacent_cosine: least_cosine, n_steps: steps }
}

/// The distance of two paths at step `i`.
pub open spec fn separation(ar: Arith, g: GraphView, a: Seq<u64>, b: Seq<u64>, i: int) -> u32 {
    vectors::distance(ar, place(g, a[i])->0, place(g, b[i])->0)
}

/// The first of the steps from `i` on at which the paths are farther apart
/// than `threshold`.
pub open spec fn onset(
    ar: Arith,
    g: GraphView,
    a: Seq<u64>,
    b: Seq<u64>,
    threshold: u32,
    i: int,
) -> Option<usize>
    decreases a.len() - i,
{
    if i >= a.len() {
        None
    } else if order::lt(threshold, separation(ar, g, a, b, i)) {
        Some(i as usize)
    } else {
        onset(ar, g, a, b, threshold, i + 1)
    }
}

/// The paths have as many steps, at least one, and all are nodes.
pub open spec fn comparable(g: GraphView, a: Seq<u64>, b: Seq<u64>) -> bool {
    &&& a.len() == b.len()
    &&& a.len() > 0
    &&& forall|i: int| 0 <= i < a.len() ==> g.has(#[trigger] a[i])
    &&& forall|i: int| 0 <= i < b.len() ==> g.has(#[trigger] b[i])
}

/// How the paths `a` and `b` part.
pub open spec fn bifurcation(ar: Arith, g: GraphView, a: Seq<u64>, b: Seq<u64>) -> BifurcationResult {
    if !comparable(g, a, b) {
        no_bifurcation()
    } else {
        let first = separation(ar, g, a, b, 0);
        let last = separation(ar, g, a, b, a.len() - 1);
        BifurcationResult {
            separation_ratio: if order::lt(TOGETHER, first) {
                ar(Op::Div, last, first, 0)
            } else if order::lt(TOGETHER, last) {
                order::INFINITY
            } else {
                order::ONE
            },
            onset_step: if order::lt(TOGETHER, first) {
                onset(ar, g, a, b, ar(Op::Mul, PARTED, first, 0), 1)
            } else {
                None
            },
            final_separation: last,
        }
    }
}

/// The distances of two paths at each step; `None` if one of them leaves the
/// graph.
fn separations<F: Fn(Op, u32, u32, u32) -> u32>(
    fpu: &F,
    graph: &ViableGraph,
    a: &[u64],
    b: &[u64],
) -> (r: Option<Vec<u32>>)
    requires
        arith::is_unit(*fpu),
        a@.len() == b@.len(),
        a@.len() > 0,
    ensures
        r is Some <==> comparable(graph@, a@, b@),
        r is Some ==> r->0@.len() == a@.len() && forall|i: int|
            0 <= i < a@.len() ==> #[trigger] r->0@[i] == separation(
                arith::arith(*fpu),
                graph@,
                a@,
                b@,
                i,
            ),
{
    let ghost ar = arith::arith(*fpu);
    let ghost g = graph@;
    let mut r: Vec<u32> = Vec::new();
    let mut i: usize = 0;
    while i < a.len()
        invariant
            i <= a@.len(),
            a@.len() == b@.len(),
            arith::is_unit(*fpu),
            ar == arith::arith(*fpu),
            g == graph@,
            r@.len() == i,
            forall|j: int|
                0 <= j < i ==> #[trigger] r@[j] == separation(ar, g, a@, b@, j),
            forall|j: int| 0 <= j < i ==> g.has(#[trigger] a@[j]),
            forall|j: int| 0 <= j < i ==> g.has(#[trigger] b@[j]),
        decreases a@.len() - i,
    {
        match (graph.coords_of(a[i]), graph.coords_of(b[i])) {
            (Some(x), Some(y)) => {
                r.push(vectors::euclidean(fpu, x, y));
            },
            _ => {
                assert(!g.has(a@[i as int]) || !g.has(b@[i as int]));
                return None;
            },
        }
        i += 1;
    }
    Some(r)
}

/// How far two paths of as many steps pull apart from the first to the last.
pub fn bifurcation_ratio<F: Fn(Op, u32, u32, u32) -> u32>(
    fpu: &F,
    graph: &ViableGraph,
    a: &[u64],
    b: &[u64],
) -> (r: BifurcationResult)
    requires
        arith::is_unit(*fpu),
    ensures
        r == bifurcation(arith::arith(*fpu), graph@, a@, b@),
{
    if a.len() != b.len() || a.len() == 0 {
        return BifurcationResult::default();
    }
    let ghost ar = arith::arith(*fpu);
    let ghost g = graph@;
    let apart: Vec<u32> = match separations(fpu, graph, a, b) {
        Some(v) => v,
        None => {
            return BifurcationResult::default();
        },
    };
    let first: u32 = apart[0];
    let final_separation: u32 = apart[apart.len() - 1];
    let separation_ratio: u32 = if order::less(TOGETHER, first) {
        arith::binary(fpu, Op::Div, final_separation, first)
    } else if order::less(TOGETHER, final_separation) {
        order::INFINITY
    } else {
        order::ONE
    };
    let mut onset_step: Option<usize> = None;
    if order::less(TOGETHER, first) {
        let threshold: u32 = arith::binary(fpu, Op::Mul, PARTED, first);
        let mut i: usize = 1;
        while i < apart.len()
            invariant_except_break
                onset_step is None,
                onset(ar, g, a@, b@, threshold, i as int) == onset(ar, g, a@, b@, threshold, 1),
            invariant
                1 <= i <= apart@.len(),
                apart@.len() == a@.len(),
                forall|j: int|
                    0 <= j < a@.len() ==> #[trigger] apart@[j] == separation(ar, g, a@, b@, j),
            ensures
                onset_step == onset(ar, g, a@, b@, threshold, 1),
            decreases apart@.len() - i,
        {
            if order::less(threshold, apart[i]) {
                onset_step = Some(i);
                break;
            }
            i += 1;
        }
    }
    BifurcationResult { separation_ratio, onset_step, final_separation }
}

} // verus!
