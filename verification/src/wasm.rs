//! The database as a page in a browser sees it: searching, and exploring the
//! neighbourhood of a vector.

use vstd::prelude::*;

use crate::arith;
use crate::arith::Arith;
use crate::arith::Op;
use crate::db::queries::SearchHit;
use crate::db::LatentDb;
use crate::manifold::graph::GraphView;
use crate::manifold::graph::ViableGraph;
use crate::manifold::paths;
use crate::manifold::roaming;
use crate::manifold::wiring;
use crate::order;
use crate::predicate::Condition;
use crate::sorting;
use crate::steering;
use crate::steering::SteeringError;
use crate::steering::SteeringVector;
use crate::vectors;

verus! {

/// The bit pattern of `1e-4`: how much farther than the last neighbour the
/// neighbourhood reaches.
pub const MARGIN: u32 = 0x38d1_b717;

/// A record on the way.
#[derive(Debug)]
pub struct Stop {
    pub id: u64,
    pub metadata: Option<String>,
}

/// A path between two records.
#[derive(Debug)]
pub struct Geodesic {
    pub from: u64,
    pub to: u64,
    pub hops: usize,
    pub path: Vec<Stop>,
}

/// What is found around a vector.
#[derive(Debug)]
pub struct Exploration {
    pub n_nodes: usize,
    pub n_edges: usize,
    pub radius: u32,
    pub random_walk: Vec<Stop>,
    pub geodesic: Option<Geodesic>,
}

/// A vector has another number of coordinates than the database.
#[derive(Debug, Clone, Copy, PartialEq, Eq, Structural)]
pub struct AnchorMismatch {
    pub got: usize,
    pub expected: usize,
}

/// The records of a list of stops.
pub open spec fn stop_ids(stops: Seq<Stop>) -> Seq<u64> {
    Seq::new(stops.len(), |i: int| stops[i].id)
}

/// Those of the first `n` of `ids` that are nodes of `g`.
pub open spec fn members(g: GraphView, ids: Seq<u64>, n: int) -> Seq<u64>
    decreases n,
{
    if n <= 0 {
        Seq::empty()
    } else if g.has(ids[n - 1]) {
        members(g, ids, n - 1).push(ids[n - 1])
    } else {
        members(g, ids, n - 1)
    }
}

/// How many of `n` records a neighbourhood of the given size holds.
pub open spec fn extent(size: int, n: int) -> int {
    let wanted = if size >= 1 {
        size
    } else {
        1
    };
    if wanted <= n {
        wanted
    } else {
        n
    }
}

/// The lower of two numbers.
pub open spec fn fewer(a: int, b: int) -> int {
    if a <= b {
        a
    } else {
        b
    }
}

/// The vectors that are at most `radius` from `anchor`.
pub open spec fn around(ar: Arith, anchor: Seq<u32>, radius: u32) -> Condition {
    |v: Seq<u32>| order::le(vectors::distance(ar, v, anchor), radius)
}

/// `fpu` is an arithmetic unit.
spec fn computes<F: Fn(Op, u32, u32, u32) -> u32>(fpu: &F) -> bool {
    arith::is_unit(*fpu)
}

/// Whether `v` is at most `radius` from `anchor`.
spec fn inside_of<F: Fn(Op, u32, u32, u32) -> u32>(
    fpu: &F,
    anchor: &Vec<u32>,
    radius: u32,
    v: Seq<u32>,
) -> bool {
    around(arith::arith(*fpu), anchor@, radius)(v)
}

/// A database to search and to explore.
pub struct WasmLatentDb {
    pub inner: LatentDb,
}

impl WasmLatentDb {
    /// The records that an exhaustive search for `anchor` finds.
    pub open spec fn found(&self, ar: Arith, anchor: Seq<u32>) -> Seq<u64> {
        let order = self.inner.vector_order(ar, anchor, self.inner.index.centroids@.len() as int);
        if self.inner.records.len <= order.len() {
            order.take(self.inner.records.len as int)
        } else {
            order
        }
    }

    /// How far the record `id` is from `anchor`.
    pub open spec fn distance_to(&self, ar: Arith, anchor: Seq<u32>, id: u64) -> u32 {
        vectors::distance(ar, self.inner.approximation(id), anchor)
    }

    /// The places of the records under their distances.
    pub open spec fn placed(&self, ar: Arith, anchor: Seq<u32>) -> Seq<(u64, u64)> {
        let ids = self.found(ar, anchor);
        Seq::new(
            ids.len(),
            |i: int|
                (
                    order::position_key(self.distance_to(ar, anchor, ids[i])) as u64,
                    i as u64,
                ),
        )
    }

    /// The records, the nearest to `anchor` first; of equal distances the one
    /// that the search ranks higher comes first.
    pub open spec fn nearest(&self, ar: Arith, anchor: Seq<u32>) -> Seq<u64> {
        let ranked = sorting::ranked(self.placed(ar, anchor));
        Seq::new(ranked.len(), |i: int| self.found(ar, anchor)[ranked[i].1 as int])
    }

    /// The distance within which the `size` nearest records lie.
    pub open spec fn reach(&self, ar: Arith, anchor: Seq<u32>, size: int) -> u32 {
        let ids = self.nearest(ar, anchor);
        let n = extent(size, ids.len() as int);
        if n == 0 {
            order::INFINITY
        } else {
            ar(Op::Add, self.distance_to(ar, anchor, ids[n - 1]), MARGIN, 0)
        }
    }

    /// Every stop has the metadata of its record.
    pub open spec fn describes(&self, stops: Seq<Stop>) -> bool {
        forall|i: int| 0 <= i < stops.len() ==> self.noted(#[trigger] stops[i])
    }

    /// The metadata of `stop` is that of its record.
    pub open spec fn noted(&self, stop: Stop) -> bool {
        &&& stop.metadata is Some <==> self.inner.records.lives(stop.id)
        &&& stop.metadata is Some ==> stop.metadata->0@ == self.inner.contents()[stop.id].text
    }

    /// `walk` is the walk from the first of `ids`, if there is one.
    pub open spec fn walked(
        &self,
        g: GraphView,
        ids: Seq<u64>,
        steps: int,
        seed: u64,
        walk: Seq<Stop>,
    ) -> bool {
        &&& self.describes(walk)
        &&& ids.len() == 0 ==> walk.len() == 0
        &&& ids.len() > 0 ==> stop_ids(walk) == paths::visited(
            g,
            roaming::roamed(g, g.node(ids[0]), seed, steps),
        )
    }

    /// `found` is the path between the first two of `ids`, if there are two
    /// and one can be reached from the other.
    pub open spec fn linked(
        &self,
        ar: Arith,
        g: GraphView,
        ids: Seq<u64>,
        found: Option<Geodesic>,
    ) -> bool {
        &&& found is Some ==> {
            &&& ids.len() >= 2
            &&& found->0.from == ids[0]
            &&& found->0.to == ids[1]
            &&& self.describes(found->0.path@)
            &&& paths::path(ar, g, g.node(ids[0]), g.node(ids[1]), stop_ids(found->0.path@))
            &&& found->0.hops == found->0.path@.len() - 1
        }
        &&& found is None && ids.len() >= 2 && paths::finite_lengths(ar, g, g.node(ids[0]))
            ==> !paths::reachable(g, g.node(ids[0]), g.node(ids[1]))
        &&& ids.len() >= 2 && ids[0] != ids[1] ==> paths::finds(
            ar,
            g,
            g.node(ids[0]),
            g.node(ids[1]),
            if found is Some {
                Some(stop_ids(found->0.path@))
            } else {
                None
            },
        )
    }

    /// `e` reports on the graph `g` of the records around `anchor`.
    pub open spec fn reports(
        &self,
        ar: Arith,
        anchor: Seq<u32>,
        size: int,
        k_nearest: int,
        steps: int,
        seed: u64,
        g: GraphView,
        e: Exploration,
    ) -> bool {
        let order = self.nearest(ar, anchor);
        let ids = members(g, order, order.len() as int);
        &&& e.radius == self.reach(ar, anchor, size)
        &&& wiring::connects(
            ar,
            around(ar, anchor, e.radius),
            self.inner.points(),
            k_nearest,
            false,
            g,
        )
        &&& e.n_nodes == g.n()
        &&& e.n_edges == g.degrees(g.n()) / 2
        &&& self.walked(g, ids, steps, seed, e.random_walk@)
        &&& self.linked(ar, g, ids, e.geodesic)
    }

    /// `e` is what an exploration around `anchor` finds.
    pub open spec fn explored(
        &self,
        ar: Arith,
        anchor: Seq<u32>,
        size: int,
        k_nearest: int,
        steps: int,
        seed: u64,
        e: Exploration,
    ) -> bool {
        exists|g: GraphView|
            #[trigger] self.reports(ar, anchor, size, k_nearest, steps, seed, g, e)
    }

    /// The number of records.
    pub fn len(&self) -> (r: usize)
        ensures
            r == self.inner.records.len,
    {
        self.inner.len()
    }

    /// Whether there are no records.
    pub fn is_empty(&self) -> (r: bool)
        ensures
            r == (self.inner.records.len == 0),
    {
        self.inner.is_empty()
    }

    /// The number of coordinates of every vector.
    pub fn dim(&self) -> (r: usize)
        ensures
            r == self.inner.dim,
    {
        self.inner.dim()
    }

    /// The best `k` records for `query`.
    pub fn search<F: Fn(Op, u32, u32, u32) -> u32>(
        &self,
        fpu: &F,
        query: &[u32],
        k: usize,
        nprobe: usize,
    ) -> (r: Vec<SearchHit>)
        requires
            arith::is_unit(*fpu),
            self.inner.answerable(),
        ensures
            query@.len() != self.inner.dim ==> r@.len() == 0,
            query@.len() == self.inner.dim ==> self.inner.answers(
                arith::arith(*fpu),
                query@,
                k as int,
                nprobe as int,
                r@,
            ),
    {
        self.inner.search(fpu, query, k, nprobe)
    }

    /// The best `k` records for `query` shifted along `direction`, if that
    /// and `alpha` make a steering vector.
    pub fn search_steered<F: Fn(Op, u32, u32, u32) -> u32>(
        &self,
        fpu: &F,
        query: &[u32],
        k: usize,
        nprobe: usize,
        direction: Vec<u32>,
        alpha: u32,
        norm_tol: u32,
    ) -> (r: Result<Vec<SearchHit>, SteeringError>)
        requires
            arith::is_unit(*fpu),
            self.inner.answerable(),
        ensures
            r == Err::<Vec<SearchHit>, SteeringError>(SteeringError::AlphaOutOfRange) <==> !(
            order::le(order::ZERO, alpha) && order::le(alpha, order::ONE)),
            r == Err::<Vec<SearchHit>, SteeringError>(SteeringError::NotUnitNorm) <==> order::le(
                order::ZERO,
                alpha,
            ) && order::le(alpha, order::ONE) && !order::le(
                steering::deviation(arith::arith(*fpu), direction@),
                norm_tol,
            ),
            r is Ok && (query@.len() != self.inner.dim || direction@.len() != self.inner.dim)
                ==> r->Ok_0@.len() == 0,
            r is Ok && query@.len() == self.inner.dim && direction@.len() == self.inner.dim
                ==> self.inner.answers(
                arith::arith(*fpu),
                steering::shifted(
                    arith::arith(*fpu),
                    query@,
                    direction@,
                    arith::arith(*fpu)(Op::Mul, alpha, order::ONE, 0),
                ),
                k as int,
                nprobe as int,
                r->Ok_0@,
            ),
    {
        match SteeringVector::new(fpu, direction, alpha, norm_tol) {
            Ok(steering) => Ok(self.inner.search_steered(fpu, query, k, nprobe, &steering)),
            Err(e) => Err(e),
        }
    }

    /// The records with their distances from `anchor`, the nearest first.
    fn by_distance<F: Fn(Op, u32, u32, u32) -> u32>(&self, fpu: &F, anchor: &Vec<u32>) -> (r: Vec<
        (u64, u32),
    >)
        requires
            arith::is_unit(*fpu),
            self.inner.answerable(),
            anchor@.len() == self.inner.dim,
        ensures
            r@.len() == self.nearest(arith::arith(*fpu), anchor@).len(),
            forall|i: int|
                0 <= i < r@.len() ==> (#[trigger] r@[i]).0 == self.nearest(
                    arith::arith(*fpu),
                    anchor@,
                )[i] && r@[i].1 == self.distance_to(arith::arith(*fpu), anchor@, r@[i].0),
    {
        let ghost ar = arith::arith(*fpu);
        let ghost found = self.found(ar, anchor@);
        let nprobe: usize = self.inner.n_index_centroids();
        let hits: Vec<SearchHit> = self.inner.search(fpu, anchor, self.inner.len(), nprobe);
        let mut distances: Vec<u32> = Vec::new();
        let mut pairs: Vec<(u64, u64)> = Vec::new();
        let mut i: usize = 0;
        while i < hits.len()
            invariant
                i <= hits@.len(),
                arith::is_unit(*fpu),
                ar == arith::arith(*fpu),
                self.inner.answerable(),
                found == self.found(ar, anchor@),
                hits@.len() == found.len(),
                forall|j: int|
                    0 <= j < hits@.len() ==> (#[trigger] hits@[j]).id == found[j]
                        && self.inner.records.lives(found[j]),
                distances@.len() == i,
                pairs@.len() == i,
                forall|j: int|
                    0 <= j < i ==> (#[trigger] distances@[j]) == self.distance_to(
                        ar,
                        anchor@,
                        found[j],
                    ),
                forall|j: int| 0 <= j < i ==> (#[trigger] pairs@[j]) == self.placed(ar, anchor@)[j],
            decreases hits@.len() - i,
        {
            let id: u64 = hits[i].id;
            assert(hits@[i as int].id == found[i as int]);
            let approx: Vec<u32> = self.inner.get_approx_vector(id).unwrap();
            let d: u32 = vectors::euclidean(fpu, &approx, anchor);
            distances.push(d);
            pairs.push((order::key_of_position(d), i as u64));
            i += 1;
        }
        assert(pairs@ =~= self.placed(ar, anchor@));
        let ranked: Vec<(u64, u64)> = sorting::rank_pairs(pairs);
        proof {
            sorting::lemma_ranked(self.placed(ar, anchor@));
        }
        let mut r: Vec<(u64, u32)> = Vec::new();
        let mut k: usize = 0;
        while k < ranked.len()
            invariant
                k <= ranked@.len(),
                found == self.found(ar, anchor@),
                hits@.len() == found.len(),
                hits@.len() == distances@.len(),
                forall|j: int| 0 <= j < hits@.len() ==> (#[trigger] hits@[j]).id == found[j],
                forall|j: int|
                    0 <= j < distances@.len() ==> (#[trigger] distances@[j]) == self.distance_to(
                        ar,
                        anchor@,
                        found[j],
                    ),
                ranked@ == sorting::ranked(self.placed(ar, anchor@)),
                forall|x: (u64, u64)| #[trigger]
                    ranked@.contains(x) <==> self.placed(ar, anchor@).contains(x),
                r@.len() == k,
                forall|j: int|
                    0 <= j < k ==> (#[trigger] r@[j]).0 == self.nearest(ar, anchor@)[j] && r@[j].1
                        == self.distance_to(ar, anchor@, r@[j].0),
            decreases ranked@.len() - k,
        {
            proof {
                let all = self.placed(ar, anchor@);
                assert(ranked@.contains(ranked@[k as int]));
                let j = choose|j: int| 0 <= j < all.len() && all[j] == ranked@[k as int];
                assert(all[j].1 == j);
                assert(hits@[j].id == found[j]);
            }
            let at: usize = ranked[k].1 as usize;
            r.push((hits[at].id, distances[at]));
            k += 1;
        }
        r
    }

    /// The stops at `ids`.
    fn stops(&self, ids: &Vec<u64>) -> (r: Vec<Stop>)
        requires
            self.inner.records.wf(),
        ensures
            stop_ids(r@) == ids@,
            self.describes(r@),
            r@.len() == ids@.len(),
    {
        let mut r: Vec<Stop> = Vec::new();
        let mut i: usize = 0;
        while i < ids.len()
            invariant
                i <= ids@.len(),
                self.inner.records.wf(),
                r@.len() == i,
                forall|j: int| 0 <= j < i ==> (#[trigger] r@[j]).id == ids@[j],
                self.describes(r@),
            decreases ids@.len() - i,
        {
            let id: u64 = ids[i];
            let metadata: Option<String> = match self.inner.get_metadata(id) {
                Some(text) => Some(text.to_owned()),
                None => None,
            };
            r.push(Stop { id, metadata });
            i += 1;
        }
        assert(stop_ids(r@) =~= ids@);
        r
    }

    /// The distance within which the nearest records lie.
    fn radius<F: Fn(Op, u32, u32, u32) -> u32>(
        &self,
        fpu: &F,
        Ghost(anchor): Ghost<Seq<u32>>,
        ranked: &Vec<(u64, u32)>,
        neighborhood_size: usize,
    ) -> (r: u32)
        requires
            arith::is_unit(*fpu),
            ranked@.len() == self.nearest(arith::arith(*fpu), anchor).len(),
            forall|i: int|
                0 <= i < ranked@.len() ==> (#[trigger] ranked@[i]).0 == self.nearest(
                    arith::arith(*fpu),
                    anchor,
                )[i] && ranked@[i].1 == self.distance_to(arith::arith(*fpu), anchor, ranked@[i].0),
        ensures
            r == self.reach(arith::arith(*fpu), anchor, neighborhood_size as int),
    {
        let wanted: usize = if neighborhood_size >= 1 {
            neighborhood_size
        } else {
            1
        };
        let n: usize = if wanted <= ranked.len() {
            wanted
        } else {
            ranked.len()
        };
        if n == 0 {
            order::INFINITY
        } else {
            assert(ranked@[n - 1].0 == self.nearest(arith::arith(*fpu), anchor)[n - 1]);
            arith::binary(fpu, Op::Add, ranked[n - 1].1, MARGIN)
        }
    }

    /// Explores the records around `anchor`: builds the graph of the
    /// `neighborhood_size` nearest records, each connected with the
    /// `k_nearest` nearest, walks `steps` steps in it from the record nearest
    /// to `anchor`, and looks for the shortest path between the two nearest.
    pub fn explore_neighborhood<F: Fn(Op, u32, u32, u32) -> u32>(
        &self,
        fpu: &F,
        anchor: Vec<u32>,
        neighborhood_size: usize,
        k_nearest: usize,
        steps: usize,
        seed: u64,
    ) -> (r: Result<Exploration, AnchorMismatch>)
        requires
            arith::is_unit(*fpu),
            self.inner.answerable(),
            self.inner.records.len <= u32::MAX,
            2 * (self.inner.records.len * fewer(k_nearest as int, self.inner.records.len as int))
                <= usize::MAX,
            steps < usize::MAX,
        ensures
            anchor@.len() != self.inner.dim ==> r == Err::<Exploration, AnchorMismatch>(
                AnchorMismatch { got: anchor@.len() as usize, expected: self.inner.dim },
            ),
            anchor@.len() == self.inner.dim ==> r is Ok && self.explored(
                arith::arith(*fpu),
                anchor@,
                neighborhood_size as int,
                k_nearest as int,
                steps as int,
                seed,
                r->Ok_0,
            ),
    {
        if anchor.len() != self.inner.dim() {
            return Err(AnchorMismatch { got: anchor.len(), expected: self.inner.dim() });
        }
        let ghost ar = arith::arith(*fpu);
        let ghost near = self.nearest(ar, anchor@);
        let ranked: Vec<(u64, u32)> = self.by_distance(fpu, &anchor);
        let radius: u32 = self.radius(fpu, Ghost(anchor@), &ranked, neighborhood_size);
        let target: &Vec<u32> = &anchor;
        let ghost cond = around(ar, anchor@, radius);
        let inside = |v: &[u32]| -> (b: bool)
            requires
                computes(fpu),
            ensures
                b == inside_of(fpu, target, radius, v@),
            { order::at_most(vectors::euclidean(fpu, v, target), radius) };
        let graph: ViableGraph = self.inner.graph_by_condition(
            fpu,
            &inside,
            Ghost(cond),
            k_nearest,
        );
        let ghost g = graph@;
        proof {
            lemma_kept_count(cond, self.inner.points(), self.inner.points().len() as int);
            lemma_degrees(g, g.n());
            wiring::edges_are_few(ar, cond, self.inner.points(), k_nearest as int, false, g);
            lemma_countable(
                g.degrees(g.n()),
                g.n(),
                self.inner.records.len as int,
                k_nearest as int,
            );
        }
        let mut ids: Vec<u64> = Vec::new();
        let mut i: usize = 0;
        while i < ranked.len()
            invariant
                i <= ranked@.len(),
                g == graph@,
                ranked@.len() == near.len(),
                forall|j: int| 0 <= j < ranked@.len() ==> (#[trigger] ranked@[j]).0 == near[j],
                ids@ == members(g, near, i as int),
                forall|j: int| 0 <= j < ids@.len() ==> g.has(#[trigger] ids@[j]),
            decreases ranked@.len() - i,
        {
            assert(ranked@[i as int].0 == near[i as int]);
            if graph.contains(ranked[i].0) {
                ids.push(ranked[i].0);
            }
            i += 1;
        }
        let random_walk: Vec<Stop> = if ids.len() > 0 {
            assert(g.has(ids@[0]));
            let walk: Vec<u64> = graph.random_walk(ids[0], steps, seed);
            self.stops(&walk)
        } else {
            Vec::new()
        };
        let geodesic: Option<Geodesic> = if ids.len() >= 2 {
            assert(g.has(ids@[0]));
            assert(g.has(ids@[1]));
            match graph.geodesic(fpu, ids[0], ids[1]) {
                Some(ids_on_path) => {
                    proof {
                        lemma_path_starts(ar, g, g.node(ids@[0]), g.node(ids@[1]), ids_on_path@);
                    }
                    let path: Vec<Stop> = self.stops(&ids_on_path);
                    Some(Geodesic { from: ids[0], to: ids[1], hops: path.len() - 1, path })
                },
                None => None,
            }
        } else {
            None
        };
        let e = Exploration {
            n_nodes: graph.n_nodes(),
            n_edges: graph.n_edges(),
            radius,
            random_walk,
            geodesic,
        };
        assert(self.reports(
            ar,
            anchor@,
            neighborhood_size as int,
            k_nearest as int,
            steps as int,
            seed,
            g,
            e,
        ));
        Ok(e)
    }
}

/// A neighbourhood holds as many of the nearest records as were asked for, as
/// long as adding the margin does not make the distance of the last of them
/// smaller. So it is not empty if there are records.
pub proof fn neighborhoods_hold_the_nearest(
    w: WasmLatentDb,
    ar: Arith,
    anchor: Seq<u32>,
    size: int,
    k_nearest: int,
    g: GraphView,
    i: int,
)
    requires
        w.inner.answerable(),
        w.inner.index.centroids@.len() <= u64::MAX,
        w.inner.records.live@.len() <= u64::MAX,
        w.found(ar, anchor).len() <= u64::MAX,
        w.inner.candidates(ar, anchor, w.inner.index.centroids@.len() as int).len() <= u64::MAX,
        wiring::connects(
            ar,
            around(ar, anchor, w.reach(ar, anchor, size)),
            w.inner.points(),
            k_nearest,
            false,
            g,
        ),
        0 <= i < extent(size, w.nearest(ar, anchor).len() as int),
        !order::nan(w.distance_to(ar, anchor, w.nearest(ar, anchor)[i])),
        order::le(
            w.distance_to(
                ar,
                anchor,
                w.nearest(ar, anchor)[extent(size, w.nearest(ar, anchor).len() as int) - 1],
            ),
            w.reach(ar, anchor, size),
        ),
    ensures
        g.has(w.nearest(ar, anchor)[i]),
{
    let ids = w.nearest(ar, anchor);
    let found = w.found(ar, anchor);
    let n = extent(size, ids.len() as int);
    let pairs = w.placed(ar, anchor);
    let ranked = sorting::ranked(pairs);
    sorting::lemma_ranked(pairs);
    assert(ranked.contains(ranked[i]) && ranked.contains(ranked[n - 1]));
    let a = choose|a: int| 0 <= a < pairs.len() && pairs[a] == ranked[i];
    let b = choose|b: int| 0 <= b < pairs.len() && pairs[b] == ranked[n - 1];
    assert(pairs[a].1 == a && pairs[b].1 == b);
    assert(ids[i] == found[a]);
    assert(ids[n - 1] == found[b]);
    if i < n - 1 {
        assert(sorting::pair_order()(ranked[i], ranked[n - 1]));
    }
    let radius = w.reach(ar, anchor, size);
    assert(order::le(w.distance_to(ar, anchor, ids[i]), radius));
    let nprobe = w.inner.index.centroids@.len() as int;
    let all = w.inner.candidates(ar, anchor, nprobe);
    let scored = w.inner.scored(ar, anchor, all);
    sorting::lemma_ranked(scored);
    let order = sorting::ranked(scored);
    assert(order.contains(order[a]));
    let c = choose|c: int| 0 <= c < scored.len() && scored[c] == order[a];
    assert(scored[c].1 == c);
    crate::db::queries::lemma_candidates_live(w.inner, ar, anchor, nprobe);
    assert(found[a] == all[c]);
    let id = ids[i];
    assert(w.inner.records.lives(id));
    let live = w.inner.records.live@;
    crate::arena::lemma_live_ids(live, live.len() as int);
    let list = w.inner.records.id_list();
    assert(list.contains((id as int) as u64));
    let m = choose|m: int| 0 <= m < list.len() && list[m] == id;
    let cond = around(ar, anchor, radius);
    let pts = w.inner.points();
    assert(pts[m] == (id, w.inner.approximation(id)));
    lemma_kept_holds(cond, pts, pts.len() as int, m);
    let nodes = wiring::kept(cond, pts, pts.len() as int);
    let k = choose|k: int| 0 <= k < nodes.len() && nodes[k] == pts[m];
    assert(g.ids[k] == id);
}

proof fn lemma_kept_holds(p: Condition, records: Seq<(u64, Seq<u32>)>, n: int, m: int)
    requires
        0 <= m < n <= records.len(),
        p(records[m].1),
    ensures
        wiring::kept(p, records, n).contains(records[m]),
    decreases n,
{
    let all = wiring::kept(p, records, n);
    if m < n - 1 {
        lemma_kept_holds(p, records, n - 1, m);
        let before = wiring::kept(p, records, n - 1);
        let k = choose|k: int| 0 <= k < before.len() && before[k] == records[m];
        assert(all[k] == records[m]);
    } else {
        assert(all[all.len() - 1] == records[m]);
    }
}

proof fn lemma_countable(degrees: int, n: int, len: int, k: int)
    requires
        0 <= n <= len,
        0 <= k,
        degrees <= n * n,
        degrees <= 2 * (n * k),
        2 * (len * fewer(k, len)) <= usize::MAX,
    ensures
        degrees <= usize::MAX,
{
    let m = fewer(k, len);
    if m == k {
        assert(n * k <= len * k) by (nonlinear_arith)
            requires
                0 <= n <= len,
                0 <= k,
        ;
    } else {
        assert(n * n <= len * len) by (nonlinear_arith)
            requires
                0 <= n <= len,
        ;
    }
}

proof fn lemma_kept_count(p: Condition, records: Seq<(u64, Seq<u32>)>, n: int)
    requires
        0 <= n <= records.len(),
    ensures
        wiring::kept(p, records, n).len() <= n,
    decreases n,
{
    if n > 0 {
        lemma_kept_count(p, records, n - 1);
    }
}

proof fn lemma_climb(s: Seq<u32>, i: int)
    requires
        sorting::increasing(s),
        0 <= i < s.len(),
    ensures
        s[i] >= i,
    decreases i,
{
    if i > 0 {
        lemma_climb(s, i - 1);
        assert(s[i - 1] < s[i]);
    }
}

proof fn lemma_degrees(g: GraphView, k: int)
    requires
        g.wf(),
        0 <= k <= g.n(),
    ensures
        g.degrees(k) <= k * g.n(),
    decreases k,
{
    if k > 0 {
        lemma_degrees(g, k - 1);
        let row = g.adj[k - 1];
        if row.len() > 0 {
            lemma_climb(row, row.len() - 1);
            assert(row[row.len() - 1] < g.n());
        }
        assert(k * g.n() == (k - 1) * g.n() + g.n()) by (nonlinear_arith);
    }
}

proof fn lemma_path_starts(ar: Arith, g: GraphView, s: int, t: int, ids: Seq<u64>)
    requires
        paths::path(ar, g, s, t, ids),
    ensures
        ids.len() >= 1,
{
    let p = choose|p: Seq<int>| #[trigger] paths::leads(ar, g, s, t, ids, p);
    assert(paths::route(g, p, s, t));
}

} // verus!
