//! Random walks.

use vstd::prelude::*;

use super::graph::GraphView;
use super::graph::ViableGraph;
use super::paths::visited;
use crate::random;
use crate::random::Draws;
use crate::vectors::rows;

verus! {

/// The node that a step from `a` leads to when `draw` was drawn: the
/// neighbour with that place in the list, or `a` itself if it has none.
pub open spec fn stepped(g: GraphView, a: int, draw: u64) -> int {
    if g.adj[a].len() == 0 {
        a
    } else {
        g.adj[a][draw as int] as int
    }
}

/// The bounds that the first `k` steps of the walk draw for: the number of
/// neighbours of each node that is left by an edge.
pub open spec fn bounds(g: GraphView, start: int, seed: u64, k: int) -> Seq<u64>
    decreases k, 0int,
{
    if k <= 0 {
        Seq::empty()
    } else {
        let a = roamed(g, start, seed, k - 1).last();
        if g.adj[a].len() == 0 {
            bounds(g, start, seed, k - 1)
        } else {
            bounds(g, start, seed, k - 1).push(g.adj[a].len() as u64)
        }
    }
}

/// The nodes of the walk from `start` after `k` steps.
pub open spec fn roamed(g: GraphView, start: int, seed: u64, k: int) -> Seq<int>
    decreases k, 1int,
{
    if k <= 0 {
        seq![start]
    } else {
        let before = roamed(g, start, seed, k - 1);
        before.push(
            stepped(
                g,
                before.last(),
                random::drawn(
                    seed,
                    bounds(g, start, seed, k - 1).push(g.adj[before.last()].len() as u64),
                ),
            ),
        )
    }
}

/// Each node of `p` is one of the graph, and is followed by a neighbour, or
/// by itself if it has none.
pub open spec fn stays_on(g: GraphView, p: Seq<int>) -> bool {
    &&& forall|i: int| 0 <= i < p.len() ==> 0 <= #[trigger] p[i] < g.n()
    &&& forall|i: int, j: int|
        #![trigger p[i], p[j]]
        0 <= i < p.len() && j == i + 1 && j < p.len() ==> g.edge(p[i], p[j]) || (g.adj[p[i]].len()
            == 0 && p[j] == p[i])
}

impl ViableGraph {
    /// Where a step from `node` leads when `draw` was drawn.
    pub fn step(&self, node: u32, draw: u64) -> (r: u32)
        requires
            node < self@.n(),
            self@.adj[node as int].len() == 0 || draw < self@.adj[node as int].len(),
        ensures
            r == stepped(self@, node as int, draw),
            r < self@.n(),
            self@.edge(node as int, r as int) || (self@.adj[node as int].len() == 0 && r == node),
    {
        let adjacency: &Vec<Vec<u32>> = self.adjacency();
        assert(rows(adjacency@)[node as int] == adjacency@[node as int]@);
        let row: &Vec<u32> = &adjacency[node as usize];
        if row.len() == 0 {
            node
        } else {
            assert(self@.adj[node as int][draw as int] < self@.n());
            assert(self@.adj[node as int].contains(row@[draw as int]));
            row[draw as usize]
        }
    }

    /// A walk of `steps` steps from `start`, to a neighbour drawn uniformly
    /// at each step. It never leaves the graph, and stays where it is at a
    /// node without neighbours. Empty if `start` is not a node.
    pub fn random_walk(&self, start: u64, steps: usize, seed: u64) -> (r: Vec<u64>)
        requires
            steps < usize::MAX,
        ensures
            !self@.has(start) ==> r@.len() == 0,
            self@.has(start) ==> r@ == visited(
                self@,
                roamed(self@, self@.node(start), seed, steps as int),
            ),
            self@.has(start) ==> stays_on(
                self@,
                roamed(self@, self@.node(start), seed, steps as int),
            ),
            self@.has(start) ==> r@.len() == steps + 1 && r@[0] == start,
    {
        let ghost g = self@;
        let mut r: Vec<u64> = Vec::new();
        let first: u32 = match self.node_of(start) {
            Some(node) => node,
            None => {
                return r;
            },
        };
        let ids: &Vec<u64> = self.ids();
        let adjacency: &Vec<Vec<u32>> = self.adjacency();
        let mut draws: Draws = Draws::seeded(seed);
        let mut cur: u32 = first;
        r.push(start);
        let mut k: usize = 0;
        proof {
            assert(r@ =~= visited(g, roamed(g, first as int, seed, 0)));
            assert(rows(adjacency@).len() == g.n());
        }
        while k < steps
            invariant
                k <= steps,
                steps < usize::MAX,
                g == self@,
                g.wf(),
                ids@ == g.ids,
                rows(adjacency@) == g.adj,
                adjacency@.len() == g.n(),
                cur < g.n(),
                first < g.n(),
                draws.seed() == seed,
                draws.asked() == bounds(g, first as int, seed, k as int),
                roamed(g, first as int, seed, k as int).len() == k + 1,
                roamed(g, first as int, seed, k as int).last() == cur,
                roamed(g, first as int, seed, k as int)[0] == first,
                stays_on(g, roamed(g, first as int, seed, k as int)),
                r@ == visited(g, roamed(g, first as int, seed, k as int)),
            decreases steps - k,
        {
            assert(rows(adjacency@)[cur as int] == adjacency@[cur as int]@);
            let degree: usize = adjacency[cur as usize].len();
            let ghost before = roamed(g, first as int, seed, k as int);
            let draw: u64 = if degree == 0 {
                0
            } else {
                draws.below(degree as u64)
            };
            cur = self.step(cur, draw);
            r.push(ids[cur as usize]);
            proof {
                let after = roamed(g, first as int, seed, k + 1);
                assert(after == before.push(cur as int));
                assert(stays_on(g, after)) by {
                    assert forall|i: int, j: int|
                        #![trigger after[i], after[j]]
                        0 <= i < after.len() && j == i + 1 && j < after.len() implies g.edge(
                        after[i],
                        after[j],
                    ) || (g.adj[after[i]].len() == 0 && after[j] == after[i]) by {
                        if j < before.len() {
                            assert(after[i] == before[i]);
                            assert(after[j] == before[j]);
                        } else {
                            assert(after[i] == before.last());
                        }
                    }
                }
                assert(r@ =~= visited(g, after));
            }
            k += 1;
        }
        r
    }
}

} // verus!
