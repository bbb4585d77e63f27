//! The graph itself: its nodes, its edges, and how it is read.

use std::collections::HashMap;
use vstd::prelude::*;

use crate::sorting;
use crate::vectors::rows;

verus! {

/// What a graph is: `ids[i]` is the record that node `i` stands for, with the
/// coordinates `coords[i]` and the neighbours `adj[i]`.
pub struct GraphView {
    pub ids: Seq<u64>,
    pub coords: Seq<Seq<u32>>,
    pub adj: Seq<Seq<u32>>,
}

impl GraphView {
    /// The number of nodes.
    pub open spec fn n(self) -> int {
        self.ids.len() as int
    }

    /// Node numbers fit in 32 bits, every neighbour is another node, each
    /// list of neighbours rises, and edges go both ways.
    pub open spec fn wf(self) -> bool {
        &&& self.coords.len() == self.n()
        &&& self.adj.len() == self.n()
        &&& self.n() <= u32::MAX
        &&& forall|a: int, i: int|
            0 <= a < self.n() && 0 <= i < self.adj[a].len() ==> (#[trigger] self.adj[a][i])
                < self.n() && self.adj[a][i] != a
        &&& forall|a: int|
            0 <= a < self.n() ==> sorting::increasing(#[trigger] self.adj[a])
        &&& forall|a: int, b: int| self.edge(a, b) ==> #[trigger] self.edge(b, a)
    }

    /// Whether `b` is a neighbour of `a`.
    pub open spec fn edge(self, a: int, b: int) -> bool {
        0 <= a < self.n() && 0 <= b < self.n() && self.adj[a].contains(b as u32)
    }

    /// Whether some node stands for the record `id`.
    pub open spec fn has(self, id: u64) -> bool {
        self.ids.contains(id)
    }

    /// Whether `i` is the last node that stands for the record `id`.
    pub open spec fn stands_for(self, i: int, id: u64) -> bool {
        &&& 0 <= i < self.n()
        &&& self.ids[i] == id
        &&& forall|j: int| i < j < self.n() ==> self.ids[j] != id
    }

    /// The node of the record `id`: the last one, should several stand for it.
    pub open spec fn node(self, id: u64) -> int {
        choose|i: int| self.stands_for(i, id)
    }

    /// The records of the given nodes.
    pub open spec fn records(self, nodes: Seq<u32>) -> Seq<u64> {
        nodes.map_values(|b: u32| self.ids[b as int])
    }

    /// Whether the records of the neighbours of `a` hold the record of `b`.
    pub open spec fn lists_record(self, a: int, b: int) -> bool {
        self.records(self.adj[a]).contains(self.ids[b])
    }

    /// Where every node stands for another record, neighbours can be told by
    /// their records.
    pub proof fn lemma_lists(self, a: int, b: int)
        requires
            self.wf(),
            self.ids.no_duplicates(),
            0 <= a < self.n(),
            0 <= b < self.n(),
        ensures
            self.lists_record(a, b) <==> self.edge(a, b),
    {
        let row = self.adj[a];
        let r = self.records(row);
        if self.edge(a, b) {
            let i = choose|i: int| 0 <= i < row.len() && row[i] == b as u32;
            assert(r[i] == self.ids[b]);
        }
        if r.contains(self.ids[b]) {
            let i = choose|i: int| 0 <= i < r.len() && r[i] == self.ids[b];
            assert(row[i] < self.n());
            assert(row[i] == b);
            assert(row.contains(b as u32));
        }
    }

    /// The sum of the degrees of the nodes below `k`.
    pub open spec fn degrees(self, k: int) -> int
        decreases k,
    {
        if k <= 0 {
            0
        } else {
            self.degrees(k - 1) + self.adj[k - 1].len()
        }
    }
}

/// A graph over a filtered subset of records. Nodes carry record ids; edges
/// are undirected.
pub struct ViableGraph {
    ids: Vec<u64>,
    coords: Vec<Vec<u32>>,
    id_to_node: HashMap<u64, u32>,
    adjacency: Vec<Vec<u32>>,
}

impl View for ViableGraph {
    type V = GraphView;

    closed spec fn view(&self) -> GraphView {
        GraphView { ids: self.ids@, coords: rows(self.coords@), adj: rows(self.adjacency@) }
    }
}

impl ViableGraph {
    #[verifier::type_invariant]
    spec fn inv(&self) -> bool {
        &&& self@.wf()
        &&& forall|id: u64| #[trigger] self.id_to_node@.contains_key(id) <==> self@.has(id)
        &&& forall|id: u64|
            #[trigger] self.id_to_node@.contains_key(id) ==> self@.stands_for(
                self.id_to_node@[id] as int,
                id,
            )
    }

    /// The graph with these nodes and neighbours.
    pub(crate) fn assemble(ids: Vec<u64>, coords: Vec<Vec<u32>>, adjacency: Vec<Vec<u32>>) -> (r:
        ViableGraph)
        requires
            (GraphView { ids: ids@, coords: rows(coords@), adj: rows(adjacency@) }).wf(),
        ensures
            r@ == (GraphView { ids: ids@, coords: rows(coords@), adj: rows(adjacency@) }),
    {
        broadcast use vstd::std_specs::hash::group_hash_axioms;

        let ghost g = GraphView { ids: ids@, coords: rows(coords@), adj: rows(adjacency@) };
        let mut id_to_node: HashMap<u64, u32> = HashMap::new();
        let mut i: u32 = 0;
        while (i as usize) < ids.len()
            invariant
                i <= ids@.len(),
                ids@.len() <= u32::MAX,
                g.ids == ids@,
                forall|id: u64| #[trigger]
                    id_to_node@.contains_key(id) ==> 0 <= id_to_node@[id] < i
                        && ids@[id_to_node@[id] as int] == id && forall|j: int|
                        id_to_node@[id] < j < i ==> ids@[j] != id,
                forall|j: int| 0 <= j < i ==> id_to_node@.contains_key(#[trigger] ids@[j]),
            decreases ids@.len() - i,
        {
            broadcast use vstd::std_specs::hash::group_hash_axioms;

            id_to_node.insert(ids[i as usize], i);
            i += 1;
        }
        proof {
            assert forall|id: u64| #[trigger] id_to_node@.contains_key(id) <==> g.has(id) by {
                if id_to_node@.contains_key(id) {
                    assert(g.ids[id_to_node@[id] as int] == id);
                }
                if g.has(id) {
                    let j = choose|j: int| 0 <= j < g.ids.len() && g.ids[j] == id;
                    assert(id_to_node@.contains_key(ids@[j]));
                }
            }
        }
        ViableGraph { ids, coords, id_to_node, adjacency }
    }

    /// The number of nodes.
    pub fn n_nodes(&self) -> (r: usize)
        ensures
            r == self@.n(),
            self@.wf(),
    {
        proof {
            use_type_invariant(self);
        }
        self.ids.len()
    }

    /// The record of each node.
    pub fn ids(&self) -> (r: &Vec<u64>)
        ensures
            r@ == self@.ids,
            self@.wf(),
    {
        proof {
            use_type_invariant(self);
        }
        &self.ids
    }

    /// The coordinates of each node.
    pub(crate) fn coords(&self) -> (r: &Vec<Vec<u32>>)
        ensures
            rows(r@) == self@.coords,
            self@.wf(),
    {
        proof {
            use_type_invariant(self);
        }
        &self.coords
    }

    /// The neighbours of each node.
    pub(crate) fn adjacency(&self) -> (r: &Vec<Vec<u32>>)
        ensures
            rows(r@) == self@.adj,
            self@.wf(),
    {
        proof {
            use_type_invariant(self);
        }
        &self.adjacency
    }

    /// Whether `id` is a node.
    pub fn contains(&self, id: u64) -> (r: bool)
        ensures
            r == self@.has(id),
    {
        broadcast use vstd::std_specs::hash::group_hash_axioms;

        proof {
            use_type_invariant(self);
        }
        self.id_to_node.contains_key(&id)
    }

    /// The node of `id`.
    pub fn node_of(&self, id: u64) -> (r: Option<u32>)
        ensures
            r is Some <==> self@.has(id),
            r is Some ==> r->0 == self@.node(id) && self@.stands_for(r->0 as int, id),
    {
        broadcast use vstd::std_specs::hash::group_hash_axioms;

        proof {
            use_type_invariant(self);
        }
        match self.id_to_node.get(&id) {
            Some(node) => {
                proof {
                    assert(self@.stands_for(*node as int, id));
                    lemma_node_unique(self@, *node as int, id);
                }
                Some(*node)
            },
            None => None,
        }
    }
}

impl ViableGraph {
    /// The number of edges.
    pub fn n_edges(&self) -> (r: usize)
        requires
            self@.degrees(self@.n()) <= usize::MAX,
        ensures
            r == self@.degrees(self@.n()) / 2,
    {
        proof {
            use_type_invariant(self);
        }
        let mut sum: usize = 0;
        let mut k: usize = 0;
        while k < self.adjacency.len()
            invariant
                k <= self.adjacency@.len(),
                self.adjacency@.len() == self@.n(),
                self@.degrees(self@.n()) <= usize::MAX,
                sum == self@.degrees(k as int),
            decreases self.adjacency@.len() - k,
        {
            proof {
                lemma_degrees_monotone(self@, k + 1, self@.n());
                assert(self@.adj[k as int] == self.adjacency@[k as int]@);
            }
            sum += self.adjacency[k].len();
            k += 1;
        }
        sum / 2
    }

    /// The ids of the neighbours of `id`; none if `id` is not a node.
    pub fn neighbors(&self, id: u64) -> (r: Vec<u64>)
        ensures
            self@.has(id) ==> r@ == self@.records(self@.adj[self@.node(id)]),
            !self@.has(id) ==> r@.len() == 0,
    {
        let mut r: Vec<u64> = Vec::new();
        let node: u32 = match self.node_of(id) {
            Some(node) => node,
            None => {
                return r;
            },
        };
        proof {
            use_type_invariant(self);
        }
        let row: &Vec<u32> = &self.adjacency[node as usize];
        let ghost target = self@.records(row@);
        assert(self@.adj[node as int] == row@);
        let mut i: usize = 0;
        while i < row.len()
            invariant
                i <= row@.len(),
                self@.wf(),
                node < self@.n(),
                self@.ids == self.ids@,
                self@.adj[node as int] == row@,
                r@.len() == i,
                target == self@.records(row@),
                forall|j: int| 0 <= j < i ==> #[trigger] r@[j] == target[j],
            decreases row@.len() - i,
        {
            assert(self@.adj[node as int][i as int] < self@.n());
            r.push(self.ids[row[i] as usize]);
            i += 1;
        }
        assert(r@ =~= target);
        r
    }

    /// The coordinates of `id`, if it is a node.
    pub fn coords_of(&self, id: u64) -> (r: Option<&Vec<u32>>)
        ensures
            r is Some <==> self@.has(id),
            r is Some ==> r->0@ == self@.coords[self@.node(id)],
    {
        match self.node_of(id) {
            Some(node) => {
                proof {
                    use_type_invariant(self);
                    assert(self@.coords[node as int] == self.coords@[node as int]@);
                }
                Some(&self.coords[node as usize])
            },
            None => None,
        }
    }
}

proof fn lemma_degrees_monotone(g: GraphView, k: int, n: int)
    requires
        k <= n,
    ensures
        g.degrees(k) <= g.degrees(n),
    decreases n - k,
{
    if k < n {
        lemma_degrees_monotone(g, k, n - 1);
    }
}

/// The last node of a record that stands somewhere.
pub proof fn lemma_last(g: GraphView, id: u64) -> (i: int)
    requires
        g.has(id),
    ensures
        g.stands_for(i, id),
{
    lemma_last_below(g, id, g.n())
}

proof fn lemma_last_below(g: GraphView, id: u64, n: int) -> (i: int)
    requires
        g.has(id),
        0 <= n <= g.n(),
        forall|j: int| n <= j < g.n() ==> g.ids[j] != id,
    ensures
        g.stands_for(i, id),
    decreases n,
{
    if n == 0 {
        let j = choose|j: int| 0 <= j < g.ids.len() && g.ids[j] == id;
        assert(g.ids[j] != id);
        0
    } else if g.ids[n - 1] == id {
        n - 1
    } else {
        lemma_last_below(g, id, n - 1)
    }
}

/// A record stands at one node.
pub proof fn lemma_node_unique(g: GraphView, i: int, id: u64)
    requires
        g.stands_for(i, id),
    ensures
        g.node(id) == i,
        g.stands_for(g.node(id), id),
        g.has(id),
{
    let j = g.node(id);
    assert(g.stands_for(j, id));
    if i < j {
        assert(g.ids[j] != id);
    }
    if j < i {
        assert(g.ids[i] != id);
    }
    assert(g.ids[i] == id);
}

} // verus!
