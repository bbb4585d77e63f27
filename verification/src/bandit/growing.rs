//! Building the tree: records are clustered, and the clusters clustered
//! again, until they are small.

use vstd::prelude::*;

use super::alpha_sum;
use super::beta_sum;
use super::pooled;
use super::pooled_param;
use super::reduction;
use super::regions;
use super::region;
use super::grounded;
use super::leaf_ids;
use super::leaves_of;
use super::pools;
use super::Region;
use super::RegionBelief;
use super::RegionTree;
use super::RegionTreeConfig;
use super::TreeNode;
use crate::arith;
use crate::arith::Arith;
use crate::arith::Noise;
use crate::arith::Op;
use crate::clustering;
use crate::manifold::wiring::points;
use crate::order;
use crate::pq;
use crate::vectors;
use crate::vectors::rows;

verus! {

/// The vectors of a list of records.
pub open spec fn vectors_of(records: Seq<(u64, Seq<u32>)>) -> Seq<Seq<u32>> {
    Seq::new(records.len(), |i: int| records[i].1)
}

/// The ids of a list of records.
pub open spec fn ids_of(records: Seq<(u64, Seq<u32>)>) -> Seq<u64> {
    Seq::new(records.len(), |i: int| records[i].0)
}

/// Records that are not split further: a leaf, or a region of leaves.
pub open spec fn group(ar: Arith, records: Seq<(u64, Seq<u32>)>, drift: u32) -> Region {
    if records.len() == 1 {
        Region::Leaf(records[0].0, RegionBelief::initial(drift))
    } else {
        pooled(
            ar,
            Seq::new(
                records.len(),
                |i: int| Region::Leaf(records[i].0, RegionBelief::initial(drift)),
            ),
        )
    }
}

/// The number of directions that vectors of `dim` coordinates, of `n`
/// records, are reduced to.
pub open spec fn target_dim(pca_dim: int, dim: int, n: int) -> int {
    let a = if pca_dim <= dim {
        pca_dim
    } else {
        dim
    };
    let b = if a <= n - 1 {
        a
    } else {
        n - 1
    };
    if b >= 1 {
        b
    } else {
        1
    }
}

/// Coordinates of all directions that vectors of `dim` coordinates are reduced
/// to can be counted.
pub open spec fn countable(pca_dim: int, dim: int) -> bool {
    if pca_dim <= dim {
        pca_dim * dim <= usize::MAX
    } else {
        dim * dim <= usize::MAX
    }
}

/// The vectors that are clustered.
pub open spec fn sketched(
    ar: Arith,
    u: Noise,
    records: Seq<(u64, Seq<u32>)>,
    config: RegionTreeConfig,
    depth: int,
) -> Seq<Seq<u32>> {
    let data = vectors_of(records);
    let dim = data[0].len() as int;
    let k = target_dim(config.pca_dim as int, dim, records.len() as int);
    if dim > k {
        reduction::reduced(ar, u, data, k, pq::seed_for(config.seed, depth))
    } else {
        data
    }
}

/// The seed for clustering at `depth`.
pub open spec fn cluster_seed(seed: u64, depth: int) -> u64 {
    pq::seed_for(pq::seed_for(seed, depth), 1_000_003)
}

/// The cluster of each record.
pub open spec fn clusters(
    ar: Arith,
    u: Noise,
    records: Seq<(u64, Seq<u32>)>,
    config: RegionTreeConfig,
    depth: int,
) -> Seq<int> {
    let data = sketched(ar, u, records, config, depth);
    clustering::assigned(
        ar,
        data,
        clustering::centroids_of(
            ar,
            data,
            config.branching_factor as int,
            config.kmeans_iterations as int,
            cluster_seed(config.seed, depth),
        ),
    )
}

/// Those of the first `n` records that belong to cluster `c`.
pub open spec fn sifted(
    records: Seq<(u64, Seq<u32>)>,
    clusters: Seq<int>,
    c: int,
    n: int,
) -> Seq<(u64, Seq<u32>)>
    decreases n,
{
    if n <= 0 {
        Seq::empty()
    } else if clusters[n - 1] == c {
        sifted(records, clusters, c, n - 1).push(records[n - 1])
    } else {
        sifted(records, clusters, c, n - 1)
    }
}

/// The clusters below `c` that have records.
pub open spec fn parts(records: Seq<(u64, Seq<u32>)>, clusters: Seq<int>, c: int) -> Seq<
    Seq<(u64, Seq<u32>)>,
>
    decreases c,
{
    if c <= 0 {
        Seq::empty()
    } else {
        let part = sifted(records, clusters, c - 1, records.len() as int);
        if part.len() > 0 {
            parts(records, clusters, c - 1).push(part)
        } else {
            parts(records, clusters, c - 1)
        }
    }
}

/// The number of clusters that `n` records are split into.
pub open spec fn branches(config: RegionTreeConfig, n: int) -> int {
    clustering::cluster_count(n, config.branching_factor as int)
}

/// The tree over `records`: split into clusters, unless they are few, or deep
/// enough, or clustering does not part them.
pub open spec fn grown(
    ar: Arith,
    u: Noise,
    records: Seq<(u64, Seq<u32>)>,
    config: RegionTreeConfig,
    depth: int,
) -> Region
    decreases config.max_depth - depth,
{
    let n = records.len() as int;
    if n <= config.min_leaf_size || depth >= config.max_depth {
        group(ar, records, config.filter_drift_rate)
    } else {
        let split = parts(
            records,
            clusters(ar, u, records, config, depth),
            branches(config, n),
        );
        if split.len() <= 1 {
            group(ar, records, config.filter_drift_rate)
        } else {
            pooled(
                ar,
                Seq::new(split.len(), |i: int| grown(ar, u, split[i], config, depth + 1)),
            )
        }
    }
}

/// All records have `dim` coordinates.
pub open spec fn uniform_dim(records: Seq<(u64, Seq<u32>)>, dim: int) -> bool {
    forall|i: int| 0 <= i < records.len() ==> (#[trigger] records[i]).1.len() == dim
}

proof fn lemma_sifted(records: Seq<(u64, Seq<u32>)>, clusters: Seq<int>, c: int, n: int, dim: int)
    requires
        0 <= n <= records.len(),
        uniform_dim(records, dim),
    ensures
        uniform_dim(sifted(records, clusters, c, n), dim),
        sifted(records, clusters, c, n).len() <= n,
    decreases n,
{
    if n > 0 {
        lemma_sifted(records, clusters, c, n - 1, dim);
    }
}

proof fn lemma_parts(records: Seq<(u64, Seq<u32>)>, clusters: Seq<int>, c: int, dim: int)
    requires
        uniform_dim(records, dim),
    ensures
        forall|i: int|
            0 <= i < parts(records, clusters, c).len() ==> uniform_dim(
                #[trigger] parts(records, clusters, c)[i],
                dim,
            ) && 0 < parts(records, clusters, c)[i].len() <= records.len(),
    decreases c,
{
    if c > 0 {
        lemma_parts(records, clusters, c - 1, dim);
        lemma_sifted(records, clusters, c - 1, records.len() as int, dim);
        let before = parts(records, clusters, c - 1);
        let all = parts(records, clusters, c);
        assert forall|i: int| 0 <= i < all.len() implies uniform_dim(#[trigger] all[i], dim) && 0
            < all[i].len() <= records.len() by {
            if i < before.len() {
                assert(all[i] == before[i]);
            }
        }
    }
}

fn make_leaf_or_group<F: Fn(Op, u32, u32, u32) -> u32>(
    fpu: &F,
    records: &Vec<(u64, Vec<u32>)>,
    drift_rate: u32,
) -> (r: TreeNode)
    requires
        arith::is_unit(*fpu),
    ensures
        region(r) == group(arith::arith(*fpu), points(records@), drift_rate),
{
    let ghost pts = points(records@);
    if records.len() == 1 {
        assert(pts[0].0 == records@[0].0);
        return TreeNode::leaf(records[0].0, drift_rate);
    }
    let mut children: Vec<TreeNode> = Vec::new();
    let mut i: usize = 0;
    while i < records.len()
        invariant
            i <= records@.len(),
            pts == points(records@),
            children@.len() == i,
            forall|j: int|
                0 <= j < i ==> region(#[trigger] children@[j]) == Region::Leaf(
                    pts[j].0,
                    RegionBelief::initial(drift_rate),
                ),
        decreases records@.len() - i,
    {
        children.push(TreeNode::leaf(records[i].0, drift_rate));
        i += 1;
    }
    assert(regions(children@) =~= Seq::new(
        pts.len(),
        |i: int| Region::Leaf(pts[i].0, RegionBelief::initial(drift_rate)),
    ));
    TreeNode::internal(fpu, children)
}

/// The vectors of the records.
fn take_vectors(records: &Vec<(u64, Vec<u32>)>) -> (r: Vec<Vec<u32>>)
    ensures
        rows(r@) == vectors_of(points(records@)),
        r@.len() == records@.len(),
{
    let mut r: Vec<Vec<u32>> = Vec::new();
    let mut i: usize = 0;
    while i < records.len()
        invariant
            i <= records@.len(),
            r@.len() == i,
            forall|j: int| 0 <= j < i ==> (#[trigger] r@[j])@ == points(records@)[j].1,
        decreases records@.len() - i,
    {
        r.push(vectors::copy(&records[i].1));
        i += 1;
    }
    assert(rows(r@) =~= vectors_of(points(records@)));
    r
}

/// The vectors to cluster.
fn sketch<F: Fn(Op, u32, u32, u32) -> u32, U: Fn(u64, u64) -> u32>(
    fpu: &F,
    uniform: &U,
    records: &Vec<(u64, Vec<u32>)>,
    config: &RegionTreeConfig,
    depth: usize,
    Ghost(dim): Ghost<int>,
) -> (r: Vec<Vec<u32>>)
    requires
        arith::is_unit(*fpu),
        arith::is_source(*uniform),
        records@.len() > 0,
        uniform_dim(points(records@), dim),
        countable(config.pca_dim as int, dim),
    ensures
        rows(r@) == sketched(
            arith::arith(*fpu),
            arith::noise(*uniform),
            points(records@),
            *config,
            depth as int,
        ),
        r@.len() == records@.len(),
        clustering::usable(rows(r@)),
{
    let data: Vec<Vec<u32>> = take_vectors(records);
    let ghost all = rows(data@);
    let n: usize = records.len();
    let size: usize = data[0].len();
    proof {
        assert(all[0] == data@[0]@);
        assert(points(records@)[0].1.len() == dim);
        assert(clustering::even(all, dim));
    }
    let a: usize = if config.pca_dim <= size {
        config.pca_dim
    } else {
        size
    };
    let b: usize = if a <= n - 1 {
        a
    } else {
        n - 1
    };
    let k: usize = if b >= 1 {
        b
    } else {
        1
    };
    if size > k {
        proof {
            if a >= 1 {
                assert(k * size <= a * size) by (nonlinear_arith)
                    requires
                        k <= a,
                ;
            } else {
                assert(k == 1);
            }
        }
        assert(pq::seed_for(config.seed, depth as int) == config.seed.wrapping_add(depth as u64));
        let r: Vec<Vec<u32>> = reduction::pca_reduce(
            fpu,
            uniform,
            &data,
            k,
            config.seed.wrapping_add(depth as u64),
        );
        assert(clustering::even(rows(r@), k as int));
        assert(rows(r@).len() == r@.len());
        r
    } else {
        data
    }
}

/// A copy of a record.
fn copy_record(record: &(u64, Vec<u32>)) -> (r: (u64, Vec<u32>))
    ensures
        r.0 == record.0,
        r.1@ == record.1@,
{
    (record.0, vectors::copy(&record.1))
}

/// The records of cluster `c`.
fn sift(
    records: &Vec<(u64, Vec<u32>)>,
    assignment: &Vec<usize>,
    c: usize,
    Ghost(a): Ghost<Seq<int>>,
) -> (r: Vec<(u64, Vec<u32>)>)
    requires
        assignment@.len() == records@.len(),
        a.len() == records@.len(),
        forall|i: int| 0 <= i < a.len() ==> (#[trigger] assignment@[i]) as int == a[i],
    ensures
        points(r@) == sifted(points(records@), a, c as int, records@.len() as int),
{
    let ghost pts = points(records@);
    let mut r: Vec<(u64, Vec<u32>)> = Vec::new();
    let mut i: usize = 0;
    assert(points(r@) =~= sifted(pts, a, c as int, 0));
    while i < records.len()
        invariant
            i <= records@.len(),
            pts == points(records@),
            assignment@.len() == records@.len(),
            a.len() == records@.len(),
            forall|i: int| 0 <= i < a.len() ==> (#[trigger] assignment@[i]) as int == a[i],
            points(r@) == sifted(pts, a, c as int, i as int),
        decreases records@.len() - i,
    {
        if assignment[i] == c {
            let ghost before = points(r@);
            let copied: (u64, Vec<u32>) = copy_record(&records[i]);
            r.push(copied);
            proof {
                assert(pts[i as int] == (copied.0, copied.1@));
                assert(points(r@) =~= before.push(pts[i as int]));
            }
        }
        i += 1;
    }
    r
}

/// What the parts of a split are.
spec fn all_points(v: Seq<Vec<(u64, Vec<u32>)>>) -> Seq<Seq<(u64, Seq<u32>)>> {
    Seq::new(v.len(), |i: int| points(v[i]@))
}

/// Splits the records into their clusters.
fn split<F: Fn(Op, u32, u32, u32) -> u32, U: Fn(u64, u64) -> u32>(
    fpu: &F,
    uniform: &U,
    records: &Vec<(u64, Vec<u32>)>,
    config: &RegionTreeConfig,
    depth: usize,
    Ghost(dim): Ghost<int>,
) -> (r: Vec<Vec<(u64, Vec<u32>)>>)
    requires
        arith::is_unit(*fpu),
        arith::is_source(*uniform),
        records@.len() > 0,
        uniform_dim(points(records@), dim),
        countable(config.pca_dim as int, dim),
    ensures
        all_points(r@) == parts(
            points(records@),
            clusters(
                arith::arith(*fpu),
                arith::noise(*uniform),
                points(records@),
                *config,
                depth as int,
            ),
            branches(*config, records@.len() as int),
        ),
{
    let ghost ar = arith::arith(*fpu);
    let ghost u = arith::noise(*uniform);
    let ghost pts = points(records@);
    let data: Vec<Vec<u32>> = sketch(fpu, uniform, records, config, depth, Ghost(dim));
    proof {
        assert(pq::seed_for(config.seed, depth as int) == config.seed.wrapping_add(depth as u64));
    }
    let seed: u64 = config.seed.wrapping_add(depth as u64).wrapping_add(1_000_003);
    assert(seed == cluster_seed(config.seed, depth as int));
    let centers: Vec<Vec<u32>> = clustering::kmeans(
        fpu,
        &data,
        config.branching_factor,
        config.kmeans_iterations,
        seed,
    );
    let ghost a = clusters(ar, u, pts, *config, depth as int);
    let assignment: Vec<usize> = clustering::assign(fpu, &data, &centers);
    assert(a == clustering::assigned(ar, rows(data@), rows(centers@)));
    let mut r: Vec<Vec<(u64, Vec<u32>)>> = Vec::new();
    let mut c: usize = 0;
    assert(all_points(r@) =~= parts(pts, a, 0));
    while c < centers.len()
        invariant
            c <= centers@.len(),
            pts == points(records@),
            assignment@.len() == records@.len(),
            a.len() == records@.len(),
            forall|i: int| 0 <= i < a.len() ==> (#[trigger] assignment@[i]) as int == a[i],
            all_points(r@) == parts(pts, a, c as int),
        decreases centers@.len() - c,
    {
        let part: Vec<(u64, Vec<u32>)> = sift(records, &assignment, c, Ghost(a));
        assert(points(part@).len() == part@.len());
        if part.len() > 0 {
            let ghost before = all_points(r@);
            r.push(part);
            assert(all_points(r@) =~= before.push(points(part@)));
        }
        c += 1;
    }
    r
}

fn build_recursive<F: Fn(Op, u32, u32, u32) -> u32, U: Fn(u64, u64) -> u32>(
    fpu: &F,
    uniform: &U,
    records: &Vec<(u64, Vec<u32>)>,
    config: &RegionTreeConfig,
    depth: usize,
    Ghost(dim): Ghost<int>,
) -> (r: TreeNode)
    requires
        arith::is_unit(*fpu),
        arith::is_source(*uniform),
        records@.len() > 0,
        uniform_dim(points(records@), dim),
        countable(config.pca_dim as int, dim),
    ensures
        region(r) == grown(
            arith::arith(*fpu),
            arith::noise(*uniform),
            points(records@),
            *config,
            depth as int,
        ),
    decreases config.max_depth - depth,
{
    let ghost ar = arith::arith(*fpu);
    let ghost u = arith::noise(*uniform);
    let ghost pts = points(records@);
    if records.len() <= config.min_leaf_size || depth >= config.max_depth {
        return make_leaf_or_group(fpu, records, config.filter_drift_rate);
    }
    let buckets: Vec<Vec<(u64, Vec<u32>)>> = split(
        fpu,
        uniform,
        records,
        config,
        depth,
        Ghost(dim),
    );
    let ghost divided = all_points(buckets@);
    if buckets.len() <= 1 {
        return make_leaf_or_group(fpu, records, config.filter_drift_rate);
    }
    proof {
        lemma_parts(
            pts,
            clusters(ar, u, pts, *config, depth as int),
            branches(*config, pts.len() as int),
            dim,
        );
    }
    let mut children: Vec<TreeNode> = Vec::new();
    let mut i: usize = 0;
    while i < buckets.len()
        invariant
            i <= buckets@.len(),
            arith::is_unit(*fpu),
            arith::is_source(*uniform),
            ar == arith::arith(*fpu),
            u == arith::noise(*uniform),
            countable(config.pca_dim as int, dim),
            depth < config.max_depth,
            divided == all_points(buckets@),
            forall|j: int|
                0 <= j < divided.len() ==> uniform_dim(#[trigger] divided[j], dim)
                    && divided[j].len() > 0,
            children@.len() == i,
            forall|j: int|
                0 <= j < i ==> region(#[trigger] children@[j]) == grown(
                    ar,
                    u,
                    divided[j],
                    *config,
                    depth + 1,
                ),
        decreases buckets@.len() - i,
    {
        assert(divided[i as int] == points(buckets@[i as int]@));
        children.push(
            build_recursive(fpu, uniform, &buckets[i], config, depth + 1, Ghost(dim)),
        );
        i += 1;
    }
    assert(regions(children@) =~= Seq::new(
        divided.len(),
        |i: int| grown(ar, u, divided[i], *config, depth + 1),
    ));
    assert(grown(ar, u, pts, *config, depth as int).children() =~= regions(children@));
    TreeNode::internal(fpu, children)
}

impl RegionTree {
    /// Builds a tree over `records`, of which there is at least one. Draws of
    /// `uniform` lie between minus one and one.
    pub fn build<F: Fn(Op, u32, u32, u32) -> u32, U: Fn(u64, u64) -> u32>(
        fpu: &F,
        uniform: &U,
        records: &Vec<(u64, Vec<u32>)>,
        config: RegionTreeConfig,
    ) -> (r: Self)
        requires
            arith::is_unit(*fpu),
            arith::is_source(*uniform),
            records@.len() > 0,
            uniform_dim(points(records@), records@[0].1@.len() as int),
            countable(config.pca_dim as int, records@[0].1@.len() as int),
        ensures
            r@ == grown(
                arith::arith(*fpu),
                arith::noise(*uniform),
                points(records@),
                config,
                0,
            ),
    {
        let ghost dim = records@[0].1@.len() as int;
        let root: TreeNode = build_recursive(fpu, uniform, records, &config, 0, Ghost(dim));
        proof {
            lemma_grown(
                arith::arith(*fpu),
                arith::noise(*uniform),
                points(records@),
                config,
                0,
            );
        }
        RegionTree::rooted(root)
    }
}

/// A tree is grounded.
proof fn lemma_grown(
    ar: Arith,
    u: Noise,
    records: Seq<(u64, Seq<u32>)>,
    config: RegionTreeConfig,
    depth: int,
)
    requires
        records.len() > 0,
    ensures
        grounded(grown(ar, u, records, config, depth)),
        pools(ar, grown(ar, u, records, config, depth)),
    decreases config.max_depth - depth,
{
    let n = records.len() as int;
    let g = group(ar, records, config.filter_drift_rate);
    assert(grounded(g) && pools(ar, g)) by {
        if records.len() != 1 {
            let c = Seq::new(
                records.len(),
                |i: int|
                    Region::Leaf(records[i].0, RegionBelief::initial(config.filter_drift_rate)),
            );
            assert(g.children() =~= c);
            assert forall|i: int| #![trigger c[i]] 0 <= i < c.len() implies grounded(c[i])
                && pools(ar, c[i]) by {
                assert(c[i] is Leaf);
            }
        }
    }
    if n <= config.min_leaf_size || depth >= config.max_depth {
    } else {
        let a = clusters(ar, u, records, config, depth);
        let k = branches(config, n);
        let split = parts(records, a, k);
        if split.len() > 1 {
            lemma_parts_nonempty(records, a, k);
            let c = Seq::new(split.len(), |i: int| grown(ar, u, split[i], config, depth + 1));
            assert forall|i: int| #![trigger c[i]] 0 <= i < c.len() implies grounded(c[i])
                && pools(ar, c[i]) by {
                assert(split[i].len() > 0);
                lemma_grown(ar, u, split[i], config, depth + 1);
            }
            assert(grown(ar, u, records, config, depth).children() =~= c);
        }
    }
}

proof fn lemma_parts_nonempty(records: Seq<(u64, Seq<u32>)>, clusters: Seq<int>, c: int)
    ensures
        forall|i: int|
            0 <= i < parts(records, clusters, c).len() ==> (#[trigger] parts(
                records,
                clusters,
                c,
            )[i]).len() > 0,
    decreases c,
{
    if c > 0 {
        lemma_parts_nonempty(records, clusters, c - 1);
        let before = parts(records, clusters, c - 1);
        let all = parts(records, clusters, c);
        assert forall|i: int| 0 <= i < all.len() implies (#[trigger] all[i]).len() > 0 by {
            if i < before.len() {
                assert(all[i] == before[i]);
            }
        }
    }
}

/// Every region of a new tree pools the beliefs on its parts.
pub proof fn new_trees_pool(
    ar: Arith,
    u: Noise,
    records: Seq<(u64, Seq<u32>)>,
    config: RegionTreeConfig,
)
    requires
        records.len() > 0,
    ensures
        pools(ar, grown(ar, u, records, config, 0)),
        grounded(grown(ar, u, records, config, 0)),
{
    lemma_grown(ar, u, records, config, 0);
}

/// The height of the tallest of the first `n` of `c`.
pub open spec fn tallest(c: Seq<Region>, n: int) -> int
    decreases c, n,
{
    if n <= 0 || n > c.len() {
        0
    } else if height(c[n - 1]) > tallest(c, n - 1) {
        height(c[n - 1])
    } else {
        tallest(c, n - 1)
    }
}

/// The number of steps from a node down to the deepest record below it.
pub open spec fn height(r: Region) -> int
    decreases r, 0int,
{
    match r {
        Region::Leaf(_, _) => 0,
        Region::Inner(c, _, _) => 1 + tallest(c, c.len() as int),
    }
}

/// Every region has at least two parts, and no more than `branching` unless
/// all of them are records.
pub open spec fn forks(r: Region, branching: int) -> bool
    decreases r,
{
    match r {
        Region::Leaf(_, _) => true,
        Region::Inner(c, _, _) => {
            &&& c.len() >= 2
            &&& c.len() <= branching || forall|i: int|
                0 <= i < c.len() ==> (#[trigger] c[i]) is Leaf
            &&& forall|i: int| #![trigger c[i]] 0 <= i < c.len() ==> forks(c[i], branching)
        },
    }
}

/// The belief on every record is the one before any observation.
pub open spec fn untouched(r: Region, drift: u32) -> bool
    decreases r,
{
    match r {
        Region::Leaf(_, belief) => belief == RegionBelief::initial(drift),
        Region::Inner(c, _, _) => forall|i: int|
            #![trigger c[i]]
            0 <= i < c.len() ==> untouched(c[i], drift),
    }
}

/// The belief on every node is the uniform one.
pub open spec fn unbiased(r: Region) -> bool
    decreases r,
{
    r.params() == (order::ONE, order::ONE) && match r {
        Region::Leaf(_, _) => true,
        Region::Inner(c, _, _) => forall|i: int|
            #![trigger c[i]]
            0 <= i < c.len() ==> unbiased(c[i]),
    }
}

/// One added to zero `n` times.
pub open spec fn ones(ar: Arith, n: int) -> u32
    decreases n,
{
    if n <= 0 {
        order::ZERO
    } else {
        ar(Op::Add, ones(ar, n - 1), order::ONE, 0)
    }
}

/// Up to `n` uniform beliefs pool to a uniform one: ones are counted exactly.
pub open spec fn counts_exactly(ar: Arith, n: int) -> bool {
    forall|m: int| 1 <= m <= n ==> pooled_param(ar, #[trigger] ones(ar, m), m) == order::ONE
}

/// The levels that can still be split below `depth`, and the one with the
/// records.
pub open spec fn room_below(config: RegionTreeConfig, depth: int) -> int {
    if depth < config.max_depth {
        config.max_depth - depth + 1
    } else {
        1
    }
}

proof fn lemma_tallest(c: Seq<Region>, n: int, most: int)
    requires
        0 <= n <= c.len(),
        0 <= most,
        forall|i: int| 0 <= i < c.len() ==> height(#[trigger] c[i]) <= most,
    ensures
        tallest(c, n) <= most,
    decreases n,
{
    if n > 0 {
        lemma_tallest(c, n - 1, most);
        assert(height(c[n - 1]) <= most);
    }
}

proof fn lemma_sifted_count(records: Seq<(u64, Seq<u32>)>, clusters: Seq<int>, c: int, n: int)
    requires
        0 <= n,
    ensures
        sifted(records, clusters, c, n).len() <= n,
    decreases n,
{
    if n > 0 {
        lemma_sifted_count(records, clusters, c, n - 1);
    }
}

proof fn lemma_parts_count(records: Seq<(u64, Seq<u32>)>, clusters: Seq<int>, c: int)
    requires
        0 <= c,
    ensures
        parts(records, clusters, c).len() <= c,
        forall|i: int|
            0 <= i < parts(records, clusters, c).len() ==> (#[trigger] parts(
                records,
                clusters,
                c,
            )[i]).len() <= records.len(),
    decreases c,
{
    if c > 0 {
        lemma_parts_count(records, clusters, c - 1);
        lemma_sifted_count(records, clusters, c - 1, records.len() as int);
        let before = parts(records, clusters, c - 1);
        let all = parts(records, clusters, c);
        assert forall|i: int| 0 <= i < all.len() implies (#[trigger] all[i]).len()
            <= records.len() by {
            if i < before.len() {
                assert(all[i] == before[i]);
            }
        }
    }
}

proof fn lemma_group_shape(ar: Arith, records: Seq<(u64, Seq<u32>)>, drift: u32, branching: int)
    requires
        records.len() > 0,
    ensures
        forks(group(ar, records, drift), branching),
        height(group(ar, records, drift)) <= 1,
        untouched(group(ar, records, drift), drift),
        records.len() == 1 ==> group(ar, records, drift) == Region::Leaf(
            records[0].0,
            RegionBelief::initial(drift),
        ),
{
    let g = group(ar, records, drift);
    if records.len() != 1 {
        let c = Seq::new(
            records.len(),
            |i: int| Region::Leaf(records[i].0, RegionBelief::initial(drift)),
        );
        assert(g.children() =~= c);
        assert forall|i: int| #![trigger c[i]] 0 <= i < c.len() implies forks(c[i], branching)
            && untouched(c[i], drift) && height(c[i]) <= 0 by {
            assert(c[i] is Leaf);
        }
        lemma_tallest(c, c.len() as int, 0);
    }
}

proof fn lemma_shape(
    ar: Arith,
    u: Noise,
    records: Seq<(u64, Seq<u32>)>,
    config: RegionTreeConfig,
    depth: int,
)
    requires
        records.len() > 0,
    ensures
        forks(grown(ar, u, records, config, depth), config.branching_factor as int),
        height(grown(ar, u, records, config, depth)) <= room_below(config, depth),
        untouched(grown(ar, u, records, config, depth), config.filter_drift_rate),
        records.len() == 1 ==> grown(ar, u, records, config, depth) == Region::Leaf(
            records[0].0,
            RegionBelief::initial(config.filter_drift_rate),
        ),
    decreases config.max_depth - depth,
{
    let n = records.len() as int;
    let most = config.branching_factor as int;
    lemma_group_shape(ar, records, config.filter_drift_rate, most);
    if n <= config.min_leaf_size || depth >= config.max_depth {
    } else {
        let a = clusters(ar, u, records, config, depth);
        let k = branches(config, n);
        let split = parts(records, a, k);
        lemma_parts_count(records, a, k);
        if split.len() > 1 {
            lemma_parts_nonempty(records, a, k);
            let c = Seq::new(split.len(), |i: int| grown(ar, u, split[i], config, depth + 1));
            assert forall|i: int| #![trigger c[i]] 0 <= i < c.len() implies forks(c[i], most)
                && untouched(c[i], config.filter_drift_rate) && height(c[i]) <= room_below(
                config,
                depth + 1,
            ) by {
                assert(split[i].len() > 0);
                lemma_shape(ar, u, split[i], config, depth + 1);
            }
            assert(grown(ar, u, records, config, depth).children() =~= c);
            lemma_tallest(c, c.len() as int, room_below(config, depth + 1));
        }
    }
}

/// The shape of a new tree: every region has at least two parts, and no more
/// than the branching factor unless it is a flat group of records; no record
/// is deeper than one step below the depth limit; a lone record is a bare
/// leaf; and the belief on every record is the uniform one.
pub proof fn new_trees_are_shaped(
    ar: Arith,
    u: Noise,
    records: Seq<(u64, Seq<u32>)>,
    config: RegionTreeConfig,
)
    requires
        records.len() > 0,
    ensures
        forks(grown(ar, u, records, config, 0), config.branching_factor as int),
        height(grown(ar, u, records, config, 0)) <= config.max_depth + 1,
        records.len() == 1 ==> grown(ar, u, records, config, 0) == Region::Leaf(
            records[0].0,
            RegionBelief::initial(config.filter_drift_rate),
        ),
        untouched(grown(ar, u, records, config, 0), config.filter_drift_rate),
        RegionBelief::initial(config.filter_drift_rate).alpha == order::ONE,
        RegionBelief::initial(config.filter_drift_rate).beta == order::ONE,
{
    lemma_shape(ar, u, records, config, 0);
}

/// Few records, or records at the depth limit, are a flat group: a region of
/// records, or a lone record.
pub proof fn small_subsets_stay_together(
    ar: Arith,
    u: Noise,
    records: Seq<(u64, Seq<u32>)>,
    config: RegionTreeConfig,
    depth: int,
)
    requires
        records.len() > 0,
        records.len() <= config.min_leaf_size || depth >= config.max_depth,
    ensures
        height(grown(ar, u, records, config, depth)) <= 1,
        leaf_ids(grown(ar, u, records, config, depth)) == ids_of(records),
{
    lemma_group_shape(ar, records, config.filter_drift_rate, 0);
    lemma_group_covers(ar, records, config.filter_drift_rate);
}

proof fn lemma_pooled_unbiased(ar: Arith, c: Seq<Region>, n: int)
    requires
        0 <= n <= c.len(),
        forall|i: int| 0 <= i < c.len() ==> (#[trigger] c[i]).params() == (order::ONE, order::ONE),
    ensures
        alpha_sum(ar, c, n) == ones(ar, n),
        beta_sum(ar, c, n) == ones(ar, n),
    decreases n,
{
    if n > 0 {
        lemma_pooled_unbiased(ar, c, n - 1);
        assert(c[n - 1].params() == (order::ONE, order::ONE));
    }
}

/// Before any observation the belief on every region is the uniform one, where
/// the arithmetic counts as many ones exactly as there are records.
pub proof fn new_trees_are_unbiased(
    ar: Arith,
    u: Noise,
    records: Seq<(u64, Seq<u32>)>,
    config: RegionTreeConfig,
    depth: int,
)
    requires
        records.len() > 0,
        counts_exactly(ar, records.len() as int),
    ensures
        unbiased(grown(ar, u, records, config, depth)),
    decreases config.max_depth - depth,
{
    let n = records.len() as int;
    let drift = config.filter_drift_rate;
    let g = group(ar, records, drift);
    assert(unbiased(g)) by {
        if n != 1 {
            let c = Seq::new(
                records.len(),
                |i: int| Region::Leaf(records[i].0, RegionBelief::initial(drift)),
            );
            assert(g.children() =~= c);
            assert forall|i: int| #![trigger c[i]] 0 <= i < c.len() implies unbiased(c[i]) by {
                assert(c[i] is Leaf);
            }
            lemma_pooled_unbiased(ar, c, n);
            assert(pooled_param(ar, ones(ar, n), n) == order::ONE);
        }
    }
    if n <= config.min_leaf_size || depth >= config.max_depth {
    } else {
        let a = clusters(ar, u, records, config, depth);
        let k = branches(config, n);
        let split = parts(records, a, k);
        if split.len() > 1 {
            lemma_parts_nonempty(records, a, k);
            lemma_parts_count(records, a, k);
            let c = Seq::new(split.len(), |i: int| grown(ar, u, split[i], config, depth + 1));
            assert forall|i: int| #![trigger c[i]] 0 <= i < c.len() implies unbiased(c[i]) by {
                assert(0 < split[i].len() <= n);
                new_trees_are_unbiased(ar, u, split[i], config, depth + 1);
            }
            let t = grown(ar, u, records, config, depth);
            assert(t.children() =~= c);
            assert forall|i: int| 0 <= i < c.len() implies (#[trigger] c[i]).params() == (
                order::ONE,
                order::ONE,
            ) by {
                assert(unbiased(c[i]));
            }
            let m = c.len() as int;
            lemma_pooled_unbiased(ar, c, m);
            assert(m <= n);
            assert(pooled_param(ar, ones(ar, m), m) == order::ONE);
        }
    }
}

/// The records of a tree are those that it was built from, each as often.
pub proof fn trees_cover_records(
    ar: Arith,
    u: Noise,
    records: Seq<(u64, Seq<u32>)>,
    config: RegionTreeConfig,
    depth: int,
)
    requires
        records.len() > 0,
    ensures
        leaf_ids(grown(ar, u, records, config, depth)).to_multiset() == ids_of(
            records,
        ).to_multiset(),
    decreases config.max_depth - depth,
{
    let n = records.len() as int;
    lemma_group_covers(ar, records, config.filter_drift_rate);
    if n <= config.min_leaf_size || depth >= config.max_depth {
    } else {
        let a = clusters(ar, u, records, config, depth);
        let k = branches(config, n);
        let split = parts(records, a, k);
        if split.len() > 1 {
            lemma_parts_nonempty(records, a, k);
            let c = Seq::new(split.len(), |i: int| grown(ar, u, split[i], config, depth + 1));
            assert forall|i: int| 0 <= i < split.len() implies leaf_ids(
                #[trigger] c[i],
            ).to_multiset() == ids_of(split[i]).to_multiset() by {
                assert(split[i].len() > 0);
                trees_cover_records(ar, u, split[i], config, depth + 1);
            }
            lemma_concatenated(c, split, split.len() as int);
            lemma_clusters_in_range(ar, u, records, config, depth);
            lemma_parts_joined(records, a, k);
            assert(grown(ar, u, records, config, depth).children() =~= c);
        }
    }
}

/// A tree over records with different ids has as many arms as there are
/// records, one for each.
pub proof fn every_record_has_an_arm(
    ar: Arith,
    u: Noise,
    records: Seq<(u64, Seq<u32>)>,
    config: RegionTreeConfig,
)
    requires
        records.len() > 0,
        ids_of(records).no_duplicates(),
    ensures
        leaf_ids(grown(ar, u, records, config, 0)).no_duplicates(),
        leaf_ids(grown(ar, u, records, config, 0)).to_set().len() == records.len(),
        forall|i: int|
            0 <= i < records.len() ==> leaf_ids(grown(ar, u, records, config, 0)).contains(
                (#[trigger] records[i]).0,
            ),
{
    broadcast use vstd::seq_lib::group_to_multiset_ensures;

    let ids = ids_of(records);
    let leaves = leaf_ids(grown(ar, u, records, config, 0));
    trees_cover_records(ar, u, records, config, 0);
    ids.lemma_multiset_has_no_duplicates();
    leaves.lemma_multiset_has_no_duplicates_conv();
    leaves.unique_seq_to_set();
    assert(leaves.len() == leaves.to_multiset().len());
    assert(ids.len() == ids.to_multiset().len());
    assert forall|i: int| 0 <= i < records.len() implies leaves.contains(
        (#[trigger] records[i]).0,
    ) by {
        assert(ids[i] == records[i].0);
        assert(ids.contains(ids[i]));
        assert(leaves.to_multiset().count(ids[i]) == ids.to_multiset().count(ids[i]));
    }
}

proof fn lemma_group_covers(ar: Arith, records: Seq<(u64, Seq<u32>)>, drift: u32)
    requires
        records.len() > 0,
    ensures
        leaf_ids(group(ar, records, drift)) == ids_of(records),
{
    if records.len() == 1 {
        assert(leaf_ids(group(ar, records, drift)) =~= ids_of(records));
    } else {
        let c = group(ar, records, drift).children();
        lemma_flat_leaves(c, records, c.len() as int);
        assert(ids_of(records).take(records.len() as int) =~= ids_of(records));
    }
}

proof fn lemma_flat_leaves(c: Seq<Region>, records: Seq<(u64, Seq<u32>)>, n: int)
    requires
        c.len() == records.len(),
        0 <= n <= c.len(),
        forall|i: int| 0 <= i < c.len() ==> (#[trigger] c[i]) is Leaf && c[i]->Leaf_0 == records[i].0,
    ensures
        leaves_of(c, n) == ids_of(records).take(n),
    decreases n,
{
    if n > 0 {
        lemma_flat_leaves(c, records, n - 1);
        assert(c[n - 1] is Leaf);
        assert(leaf_ids(c[n - 1]) =~= seq![records[n - 1].0]);
        assert(leaves_of(c, n) =~= ids_of(records).take(n));
    } else {
        assert(leaves_of(c, n) =~= ids_of(records).take(n));
    }
}

/// The records of the first `n` parts, one after the other.
spec fn joined_parts(split: Seq<Seq<(u64, Seq<u32>)>>, n: int) -> Seq<u64>
    decreases n,
{
    if n <= 0 {
        Seq::empty()
    } else {
        joined_parts(split, n - 1) + ids_of(split[n - 1])
    }
}

proof fn lemma_concatenated(c: Seq<Region>, split: Seq<Seq<(u64, Seq<u32>)>>, n: int)
    requires
        c.len() == split.len(),
        0 <= n <= c.len(),
        forall|i: int|
            0 <= i < c.len() ==> leaf_ids(#[trigger] c[i]).to_multiset() == ids_of(
                split[i],
            ).to_multiset(),
    ensures
        leaves_of(c, n).to_multiset() == joined_parts(split, n).to_multiset(),
    decreases n,
{
    if n > 0 {
        lemma_concatenated(c, split, n - 1);
        vstd::seq_lib::lemma_multiset_commutative(leaves_of(c, n - 1), leaf_ids(c[n - 1]));
        vstd::seq_lib::lemma_multiset_commutative(joined_parts(split, n - 1), ids_of(split[n - 1]));
    } else {
        assert(leaves_of(c, n) =~= joined_parts(split, n));
    }
}

/// The records of the clusters below `c`, one cluster after the other.
spec fn by_cluster(records: Seq<(u64, Seq<u32>)>, clusters: Seq<int>, c: int, n: int) -> Seq<u64>
    decreases c,
{
    if c <= 0 {
        Seq::empty()
    } else {
        by_cluster(records, clusters, c - 1, n) + ids_of(sifted(records, clusters, c - 1, n))
    }
}

/// Leaving empty clusters out changes nothing.
proof fn lemma_parts_by_cluster(records: Seq<(u64, Seq<u32>)>, clusters: Seq<int>, c: int)
    ensures
        joined_parts(
            parts(records, clusters, c),
            parts(records, clusters, c).len() as int,
        ) == by_cluster(records, clusters, c, records.len() as int),
    decreases c,
{
    if c > 0 {
        lemma_parts_by_cluster(records, clusters, c - 1);
        let before = parts(records, clusters, c - 1);
        let all = parts(records, clusters, c);
        let part = sifted(records, clusters, c - 1, records.len() as int);
        if part.len() > 0 {
            lemma_joined_prefix(before, all, before.len() as int);
        } else {
            assert(ids_of(part) =~= Seq::<u64>::empty());
            assert(by_cluster(records, clusters, c - 1, records.len() as int) + ids_of(part)
                =~= by_cluster(records, clusters, c - 1, records.len() as int));
        }
    }
}

proof fn lemma_joined_prefix(
    a: Seq<Seq<(u64, Seq<u32>)>>,
    b: Seq<Seq<(u64, Seq<u32>)>>,
    n: int,
)
    requires
        0 <= n <= a.len(),
        n <= b.len(),
        forall|i: int| 0 <= i < n ==> a[i] == b[i],
    ensures
        joined_parts(a, n) == joined_parts(b, n),
    decreases n,
{
    if n > 0 {
        lemma_joined_prefix(a, b, n - 1);
    }
}

/// One more record joins one cluster.
proof fn lemma_by_cluster_step(
    records: Seq<(u64, Seq<u32>)>,
    clusters: Seq<int>,
    c: int,
    n: int,
)
    requires
        0 <= n < records.len(),
        0 <= clusters[n],
        0 <= c,
    ensures
        by_cluster(records, clusters, c, n + 1).to_multiset() == if clusters[n] < c {
            by_cluster(records, clusters, c, n).to_multiset().insert(records[n].0)
        } else {
            by_cluster(records, clusters, c, n).to_multiset()
        },
    decreases c,
{
    broadcast use vstd::seq_lib::group_to_multiset_ensures;

    if c > 0 {
        lemma_by_cluster_step(records, clusters, c - 1, n);
        let x = by_cluster(records, clusters, c - 1, n);
        let y = by_cluster(records, clusters, c - 1, n + 1);
        let s = ids_of(sifted(records, clusters, c - 1, n));
        let t = ids_of(sifted(records, clusters, c - 1, n + 1));
        vstd::seq_lib::lemma_multiset_commutative(x, s);
        vstd::seq_lib::lemma_multiset_commutative(y, t);
        if clusters[n] == c - 1 {
            assert(t =~= s.push(records[n].0));
        }
        assert(by_cluster(records, clusters, c, n + 1).to_multiset() =~= y.to_multiset().add(
            t.to_multiset(),
        ));
        assert(by_cluster(records, clusters, c, n).to_multiset() =~= x.to_multiset().add(
            s.to_multiset(),
        ));
        if clusters[n] < c {
            assert(y.to_multiset().add(t.to_multiset()) =~= x.to_multiset().add(
                s.to_multiset(),
            ).insert(records[n].0));
        }
    }
}

proof fn lemma_by_cluster_all(records: Seq<(u64, Seq<u32>)>, clusters: Seq<int>, c: int, n: int)
    requires
        0 <= n <= records.len(),
        0 <= c,
        forall|i: int| 0 <= i < records.len() ==> 0 <= #[trigger] clusters[i] < c,
    ensures
        by_cluster(records, clusters, c, n).to_multiset() == ids_of(records).take(n).to_multiset(),
    decreases n,
{
    broadcast use vstd::seq_lib::group_to_multiset_ensures;

    if n > 0 {
        lemma_by_cluster_all(records, clusters, c, n - 1);
        assert(0 <= clusters[n - 1] < c);
        lemma_by_cluster_step(records, clusters, c, n - 1);
        assert(ids_of(records).take(n) =~= ids_of(records).take(n - 1).push(records[n - 1].0));
    } else {
        lemma_by_cluster_none(records, clusters, c);
        assert(by_cluster(records, clusters, c, 0) =~= ids_of(records).take(0));
    }
}

proof fn lemma_by_cluster_none(records: Seq<(u64, Seq<u32>)>, clusters: Seq<int>, c: int)
    ensures
        by_cluster(records, clusters, c, 0).len() == 0,
    decreases c,
{
    if c > 0 {
        lemma_by_cluster_none(records, clusters, c - 1);
    }
}

proof fn lemma_parts_joined(records: Seq<(u64, Seq<u32>)>, clusters: Seq<int>, c: int)
    requires
        0 <= c,
        forall|i: int| 0 <= i < records.len() ==> 0 <= #[trigger] clusters[i] < c,
    ensures
        joined_parts(
            parts(records, clusters, c),
            parts(records, clusters, c).len() as int,
        ).to_multiset() == ids_of(records).to_multiset(),
{
    lemma_parts_by_cluster(records, clusters, c);
    lemma_by_cluster_all(records, clusters, c, records.len() as int);
    assert(ids_of(records).take(records.len() as int) =~= ids_of(records));
}

/// Every record belongs to one of the clusters.
proof fn lemma_clusters_in_range(
    ar: Arith,
    u: Noise,
    records: Seq<(u64, Seq<u32>)>,
    config: RegionTreeConfig,
    depth: int,
)
    requires
        records.len() > 0,
    ensures
        forall|i: int|
            0 <= i < records.len() ==> 0 <= #[trigger] clusters(ar, u, records, config, depth)[i]
                < branches(config, records.len() as int),
{
    let data = sketched(ar, u, records, config, depth);
    let n = records.len() as int;
    assert(data.len() == n);
    let k = branches(config, n);
    let rounds = if config.kmeans_iterations >= 1 {
        config.kmeans_iterations as int
    } else {
        1
    };
    let seed = cluster_seed(config.seed, depth);
    let centers = clustering::centroids_of(
        ar,
        data,
        config.branching_factor as int,
        config.kmeans_iterations as int,
        seed,
    );
    clustering::lemma_center_count(ar, data, k, seed, rounds);
    assert(centers.len() == k);
    assert forall|i: int| 0 <= i < n implies 0 <= #[trigger] clusters(
        ar,
        u,
        records,
        config,
        depth,
    )[i] < k by {
        vectors::lemma_least_in_range(
            vectors::distances_from(ar, data[i], centers),
            k,
        );
    }
}

} // verus!
