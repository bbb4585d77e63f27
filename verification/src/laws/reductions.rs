//! What reducing to few dimensions and splitting into regions amounts to.

use vstd::prelude::*;

use super::codecs;
use super::inner;
use super::lemma_total_none;
use super::lemma_total_take;
use super::magnitude;
use super::measures;
use super::number;
use super::sums;
use super::total;
use crate::arith::Arith;
use crate::arith::Noise;
use crate::arith::Op;
use crate::bandit::growing;
use crate::bandit::reduction;
use crate::bandit::RegionTreeConfig;
use crate::clustering;
use crate::order;
use crate::vectors;

verus! {

/// Coordinate `d` of all vectors.
pub open spec fn coordinate(data: Seq<Seq<u32>>, d: int) -> Seq<u32> {
    Seq::new(data.len(), |i: int| data[i][d])
}

/// The mean of coordinate `d`.
pub open spec fn average(ar: Arith, data: Seq<Seq<u32>>, d: int) -> u32 {
    ar(
        Op::Mul,
        total(ar, coordinate(data, d)),
        ar(Op::Div, 0x3f80_0000, number(ar, data.len() as int), 0),
        0,
    )
}

proof fn lemma_columns(ar: Arith, data: Seq<Seq<u32>>, d: int, m: int)
    requires
        0 <= m <= data.len(),
    ensures
        reduction::column_sum(ar, data, d, m) == total(ar, coordinate(data, d).take(m)),
    decreases m,
{
    if m > 0 {
        lemma_columns(ar, data, d, m - 1);
        lemma_total_take(ar, coordinate(data, d), m);
    } else {
        lemma_total_none(ar, coordinate(data, d));
    }
}

/// Centering takes the mean of every coordinate from it.
pub proof fn centering_takes_the_mean_away(ar: Arith, data: Seq<Seq<u32>>, i: int, d: int)
    requires
        0 <= i < data.len(),
        0 <= d < data[0].len(),
    ensures
        reduction::centered(ar, data).len() == data.len(),
        reduction::centered(ar, data)[i].len() == data[0].len(),
        reduction::centered(ar, data)[i][d] == ar(Op::Sub, data[i][d], average(ar, data, d), 0),
{
    lemma_columns(ar, data, d, data.len() as int);
    assert(coordinate(data, d).take(data.len() as int) =~= coordinate(data, d));
}

/// The products of coordinates `i` and `j` of all vectors.
pub open spec fn joint(ar: Arith, data: Seq<Seq<u32>>, i: int, j: int) -> Seq<u32> {
    Seq::new(data.len(), |m: int| ar(Op::Mul, data[m][i], data[m][j], 0))
}

proof fn lemma_joint(ar: Arith, data: Seq<Seq<u32>>, i: int, j: int, m: int)
    requires
        0 <= m <= data.len(),
    ensures
        reduction::product_sum(ar, data, i, j, m) == total(ar, joint(ar, data, i, j).take(m)),
    decreases m,
{
    if m > 0 {
        lemma_joint(ar, data, i, j, m - 1);
        lemma_total_take(ar, joint(ar, data, i, j), m);
    } else {
        lemma_total_none(ar, joint(ar, data, i, j));
    }
}

/// A covariance is the sum of the products of two coordinates over all
/// vectors, over their number less one; over one at least. It does not matter
/// which coordinate comes first.
pub proof fn covariances_are_mean_products(
    ar: Arith,
    data: Seq<Seq<u32>>,
    dim: int,
    i: int,
    j: int,
)
    requires
        0 <= i <= j < dim,
    ensures
        ({
            let m = reduction::covariance(ar, data, dim);
            let less = ar(Op::Sub, number(ar, data.len() as int), 0x3f80_0000, 0);
            let over = if order::le(0x3f80_0000, less) {
                less
            } else {
                0x3f80_0000
            };
            &&& m.len() == dim
            &&& m[i].len() == dim
            &&& m[i][j] == ar(Op::Div, total(ar, joint(ar, data, i, j)), over, 0)
            &&& m[j][i] == m[i][j]
        }),
{
    let n = data.len() as int;
    lemma_joint(ar, data, i, j, n);
    assert(joint(ar, data, i, j).take(n) =~= joint(ar, data, i, j));
}

/// The image of `v` under the matrix `m`.
pub open spec fn image(ar: Arith, m: Seq<Seq<u32>>, v: Seq<u32>) -> Seq<u32> {
    Seq::new(m.len(), |i: int| inner(ar, m[i], v))
}

/// `v` over its length, unless that is all but zero.
pub open spec fn unit(ar: Arith, v: Seq<u32>) -> Seq<u32> {
    Seq::new(
        v.len(),
        |i: int|
            if order::lt(0x2b8c_bccc, magnitude(ar, v)) {
                ar(Op::Div, v[i], magnitude(ar, v), 0)
            } else {
                v[i]
            },
    )
}

/// The cosine of `v` and `w`, of unit length, is within a millionth of one,
/// whatever its sign.
pub open spec fn aligns(ar: Arith, v: Seq<u32>, w: Seq<u32>) -> bool {
    let cosine = (inner(ar, v, w) % 0x8000_0000) as u32;
    order::lt((ar(Op::Sub, cosine, 0x3f80_0000, 0) % 0x8000_0000) as u32, 0x3586_37bd)
}

/// The matrix `m` without its share in the direction of `v`.
pub open spec fn stripped(ar: Arith, m: Seq<Seq<u32>>, v: Seq<u32>) -> Seq<Seq<u32>> {
    let weight = inner(ar, v, image(ar, m, v));
    Seq::new(
        m.len(),
        |i: int|
            Seq::new(
                m[i].len(),
                |j: int|
                    ar(
                        Op::Sub,
                        m[i][j],
                        ar(Op::Mul, ar(Op::Mul, weight, v[i], 0), v[j], 0),
                        0,
                    ),
            ),
    )
}

proof fn lemma_image(ar: Arith, m: Seq<Seq<u32>>, v: Seq<u32>, dim: int)
    requires
        sums::sums_freely(ar),
        reduction::square(m, dim),
        v.len() == dim,
    ensures
        reduction::applied(ar, m, v) == image(ar, m, v),
        reduction::next_round(ar, m, v) == unit(ar, image(ar, m, v)),
{
    assert forall|i: int| 0 <= i < m.len() implies #[trigger] reduction::applied(ar, m, v)[i]
        == inner(ar, m[i], v) by {
        assert(m[i].len() == dim);
        sums::fast_products_add_up(ar, m[i], v);
    }
    assert(reduction::applied(ar, m, v) =~= image(ar, m, v));
    let w = image(ar, m, v);
    assert forall|i: int| 0 <= i < w.len() implies #[trigger] vectors::scaled_to_unit(
        ar,
        w,
        0x2b8c_bccc,
    )[i] == unit(ar, w)[i] by {
        measures::scaling_divides_by_the_length(ar, w, 0x2b8c_bccc, i);
    }
    if w.len() > 0 {
        measures::scaling_divides_by_the_length(ar, w, 0x2b8c_bccc, 0);
    }
    assert(vectors::scaled_to_unit(ar, w, 0x2b8c_bccc) =~= unit(ar, w));
}

/// `trail` goes from `v` by one image at a time, each brought to unit length,
/// until two in a row align, but for at most `rounds` of them.
pub open spec fn converges(
    ar: Arith,
    m: Seq<Seq<u32>>,
    v: Seq<u32>,
    rounds: int,
    trail: Seq<Seq<u32>>,
) -> bool {
    &&& 0 < trail.len() <= rounds + 1
    &&& trail[0] == v
    &&& forall|i: int|
        #![trigger trail[i]]
        0 < i < trail.len() ==> trail[i] == unit(ar, image(ar, m, trail[i - 1]))
    &&& forall|i: int|
        #![trigger trail[i]]
        0 < i < trail.len() - 1 ==> !aligns(ar, trail[i - 1], trail[i])
    &&& trail.len() <= rounds ==> trail.len() >= 2 && aligns(
        ar,
        trail[trail.len() - 2],
        trail.last(),
    )
}

/// `w` is where such a trail of at most two hundred rounds ends.
#[verifier::opaque]
pub open spec fn settles_on(ar: Arith, m: Seq<Seq<u32>>, v: Seq<u32>, w: Seq<u32>) -> bool {
    exists|trail: Seq<Seq<u32>>| #[trigger]
        converges(ar, m, v, 200, trail) && trail.last() == w
}

proof fn lemma_settles(ar: Arith, m: Seq<Seq<u32>>, v: Seq<u32>, dim: int)
    requires
        sums::sums_freely(ar),
        reduction::square(m, dim),
        v.len() == dim,
    ensures
        settles_on(ar, m, v, reduction::dominant(ar, m, v, 0)),
        reduction::dominant(ar, m, v, 0).len() == dim,
{
    reveal(settles_on);
    let trail = lemma_dominant(ar, m, v, dim, 0);
}

proof fn lemma_dominant(ar: Arith, m: Seq<Seq<u32>>, v: Seq<u32>, dim: int, k: int) -> (trail: Seq<
    Seq<u32>,
>)
    requires
        sums::sums_freely(ar),
        reduction::square(m, dim),
        v.len() == dim,
        0 <= k <= 200,
    ensures
        converges(ar, m, v, 200 - k, trail),
        trail.last() == reduction::dominant(ar, m, v, k),
        trail.last().len() == dim,
    decreases 200 - k,
{
    if k >= 200 {
        seq![v]
    } else {
        let w = reduction::next_round(ar, m, v);
        lemma_image(ar, m, v, dim);
        assert(w.len() == dim);
        sums::fast_products_add_up(ar, v, w);
        assert(reduction::settled(ar, v, w) == aligns(ar, v, w));
        if reduction::settled(ar, v, w) {
            seq![v, w]
        } else {
            let rest = lemma_dominant(ar, m, w, dim, k + 1);
            let trail = seq![v] + rest;
            assert(trail.last() == rest.last());
            assert forall|i: int| #![trigger trail[i]] 0 < i < trail.len() implies trail[i] == unit(
                ar,
                image(ar, m, trail[i - 1]),
            ) by {
                assert(trail[i] == rest[i - 1]);
                if i > 1 {
                    assert(trail[i - 1] == rest[i - 2]);
                }
            }
            assert forall|i: int| #![trigger trail[i]] 0 < i < trail.len() - 1 implies !aligns(
                ar,
                trail[i - 1],
                trail[i],
            ) by {
                assert(trail[i] == rest[i - 1]);
                if i > 1 {
                    assert(trail[i - 1] == rest[i - 2]);
                }
            }
            if trail.len() <= 200 - k {
                assert(trail[trail.len() - 2] == rest[rest.len() - 2]);
            }
            trail
        }
    }
}

/// Where the search for direction `c` starts: at uniform numbers, brought to
/// unit length.
pub open spec fn outset(ar: Arith, u: Noise, seed: u64, dim: int, c: int) -> Seq<u32> {
    unit(ar, Seq::new(dim as nat, |i: int| u(seed, (c * dim + i) as u64)))
}

/// What is left of a matrix once its shares in the first `n` directions are
/// taken away, one after the other.
pub open spec fn remainder(ar: Arith, m: Seq<Seq<u32>>, directions: Seq<Seq<u32>>) -> Seq<
    Seq<u32>,
> {
    directions.fold_left(m, |rest: Seq<Seq<u32>>, v: Seq<u32>| stripped(ar, rest, v))
}

proof fn lemma_stripped(ar: Arith, m: Seq<Seq<u32>>, v: Seq<u32>, dim: int)
    requires
        sums::sums_freely(ar),
        reduction::square(m, dim),
        v.len() == dim,
    ensures
        reduction::deflated(ar, m, v) == stripped(ar, m, v),
        reduction::square(stripped(ar, m, v), dim),
{
    lemma_image(ar, m, v, dim);
    sums::fast_products_add_up(ar, v, image(ar, m, v));
    let a = reduction::deflated(ar, m, v);
    let b = stripped(ar, m, v);
    assert forall|i: int| 0 <= i < m.len() implies #[trigger] a[i] == b[i] && b[i].len() == dim by {
        assert(m[i].len() == dim);
        assert(a[i] =~= b[i]);
    }
    assert(a =~= b);
    assert forall|i: int| 0 <= i < b.len() implies (#[trigger] b[i]).len() == dim by {
        assert(a[i] == b[i]);
    }
}

proof fn lemma_outset(ar: Arith, u: Noise, seed: u64, dim: int, c: int)
    requires
        0 <= dim,
    ensures
        reduction::starting(ar, u, seed, dim, c) == outset(ar, u, seed, dim, c),
        outset(ar, u, seed, dim, c).len() == dim,
{
    let raw = Seq::new(dim as nat, |i: int| u(seed, (c * dim + i) as u64));
    let start = reduction::starting(ar, u, seed, dim, c);
    assert forall|i: int| 0 <= i < raw.len() implies #[trigger] start[i] == unit(ar, raw)[i] by {
        measures::scaling_divides_by_the_length(ar, raw, 0x2b8c_bccc, i);
    }
    if raw.len() > 0 {
        measures::scaling_divides_by_the_length(ar, raw, 0x2b8c_bccc, 0);
    }
    assert(start =~= outset(ar, u, seed, dim, c));
}

proof fn lemma_extracted(
    ar: Arith,
    u: Noise,
    seed: u64,
    m: Seq<Seq<u32>>,
    dim: int,
    n: int,
    c: int,
)
    requires
        sums::sums_freely(ar),
        reduction::square(m, dim),
        0 <= n,
    ensures
        reduction::extracted(ar, u, seed, m, n).1.len() == n,
        reduction::square(reduction::extracted(ar, u, seed, m, n).0, dim),
        reduction::extracted(ar, u, seed, m, n).0 == remainder(
            ar,
            m,
            reduction::extracted(ar, u, seed, m, n).1,
        ),
        0 <= c < n ==> reduction::extracted(ar, u, seed, m, n).1[c].len() == dim && settles_on(
            ar,
            remainder(ar, m, reduction::extracted(ar, u, seed, m, n).1.take(c)),
            outset(ar, u, seed, dim, c),
            reduction::extracted(ar, u, seed, m, n).1[c],
        ),
    decreases n,
{
    let found = reduction::extracted(ar, u, seed, m, n).1;
    if n > 0 {
        lemma_extracted(ar, u, seed, m, dim, n - 1, c);
        let (before, earlier) = reduction::extracted(ar, u, seed, m, n - 1);
        let start = reduction::starting(ar, u, seed, dim, n - 1);
        lemma_outset(ar, u, seed, dim, n - 1);
        lemma_settles(ar, before, start, dim);
        let v = reduction::dominant(ar, before, start, 0);
        lemma_stripped(ar, before, v, dim);
        assert(found == earlier.push(v));
        assert(found.drop_last() =~= earlier);
        assert(found.last() == v);
        assert(remainder(ar, m, found) == stripped(ar, remainder(ar, m, earlier), v));
        if 0 <= c < n - 1 {
            assert(found.take(c) =~= earlier.take(c));
            assert(found[c] == earlier[c]);
        } else if c == n - 1 {
            assert(found.take(c) =~= earlier);
        }
    }
}

/// The principal directions are found one after the other: each is where
/// repeated images under what the earlier ones leave of the matrix settle.
pub proof fn directions_are_found_one_after_the_other(
    ar: Arith,
    u: Noise,
    seed: u64,
    m: Seq<Seq<u32>>,
    dim: int,
    n: int,
    c: int,
)
    requires
        sums::sums_freely(ar),
        reduction::square(m, dim),
        0 <= c < n,
    ensures
        reduction::extracted(ar, u, seed, m, n).1.len() == n,
        settles_on(
            ar,
            remainder(ar, m, reduction::extracted(ar, u, seed, m, n).1.take(c)),
            outset(ar, u, seed, dim, c),
            reduction::extracted(ar, u, seed, m, n).1[c],
        ),
{
    lemma_extracted(ar, u, seed, m, dim, n, c);
}

/// A reduced vector has the products of the centered one with the principal
/// directions of the covariances.
pub proof fn reduced_vectors_are_projections(
    ar: Arith,
    u: Noise,
    data: Seq<Seq<u32>>,
    n: int,
    seed: u64,
    i: int,
    k: int,
)
    requires
        sums::sums_freely(ar),
        0 <= i < data.len(),
        0 <= k < n,
    ensures
        ({
            let dim = data[0].len() as int;
            let centered = reduction::centered(ar, data);
            let directions = reduction::extracted(
                ar,
                u,
                seed,
                reduction::covariance(ar, centered, dim),
                n,
            ).1;
            let r = reduction::reduced(ar, u, data, n, seed);
            &&& r.len() == data.len()
            &&& r[i].len() == n
            &&& directions.len() == n
            &&& r[i][k] == inner(ar, centered[i], directions[k])
        }),
{
    let dim = data[0].len() as int;
    let centered = reduction::centered(ar, data);
    let m = reduction::covariance(ar, centered, dim);
    assert forall|j: int| 0 <= j < m.len() implies (#[trigger] m[j]).len() == dim by {}
    lemma_extracted(ar, u, seed, m, dim, n, k);
    let directions = reduction::extracted(ar, u, seed, m, n).1;
    assert(directions[k].len() == dim);
    sums::fast_products_add_up(ar, centered[i], directions[k]);
}

/// Records are split by the closest of the centers that clustering their
/// sketches finds.
pub proof fn records_are_split_by_the_closest_center(
    ar: Arith,
    u: Noise,
    records: Seq<(u64, Seq<u32>)>,
    config: RegionTreeConfig,
    depth: int,
    i: int,
)
    requires
        0 <= i < growing::sketched(ar, u, records, config, depth).len(),
        clustering::usable(growing::sketched(ar, u, records, config, depth)),
        codecs::picks_below(
            growing::cluster_seed(config.seed, depth),
            growing::sketched(ar, u, records, config, depth).len() as int,
        ),
        growing::sketched(ar, u, records, config, depth).len() <= u64::MAX,
    ensures
        growing::clusters(ar, u, records, config, depth).len() == growing::sketched(
            ar,
            u,
            records,
            config,
            depth,
        ).len(),
        codecs::closest(
            ar,
            clustering::centroids_of(
                ar,
                growing::sketched(ar, u, records, config, depth),
                config.branching_factor as int,
                config.kmeans_iterations as int,
                growing::cluster_seed(config.seed, depth),
            ),
            growing::sketched(ar, u, records, config, depth)[i],
            growing::clusters(ar, u, records, config, depth)[i],
        ),
{
    let data = growing::sketched(ar, u, records, config, depth);
    let seed = growing::cluster_seed(config.seed, depth);
    let centers = clustering::centroids_of(
        ar,
        data,
        config.branching_factor as int,
        config.kmeans_iterations as int,
        seed,
    );
    codecs::clustering_relaxes_once_per_round(
        ar,
        data,
        config.branching_factor as int,
        config.kmeans_iterations as int,
        seed,
    );
    codecs::lemma_closest(ar, centers, data[i]);
}

/// The records whose cluster is `c`, among the first `n`.
pub open spec fn gathering(
    records: Seq<(u64, Seq<u32>)>,
    clusters: Seq<int>,
    c: int,
    n: nat,
) -> Seq<(u64, Seq<u32>)> {
    let who = codecs::places_among(clusters, c, n);
    Seq::new(who.len(), |k: int| records[who[k]])
}

proof fn lemma_sifted(records: Seq<(u64, Seq<u32>)>, clusters: Seq<int>, c: int, n: int)
    requires
        0 <= n <= records.len(),
        records.len() == clusters.len(),
    ensures
        growing::sifted(records, clusters, c, n) == gathering(records, clusters, c, n as nat),
    decreases n,
{
    reveal(Seq::filter);
    let all = Seq::new(n as nat, |i: int| i);
    if n > 0 {
        lemma_sifted(records, clusters, c, n - 1);
        let before = codecs::places_among(clusters, c, (n - 1) as nat);
        let who = codecs::places_among(clusters, c, n as nat);
        assert(all.drop_last() =~= Seq::new((n - 1) as nat, |i: int| i));
        assert(all.last() == n - 1);
        if clusters[n - 1] == c {
            assert(who =~= before.push(n - 1));
        } else {
            assert(who =~= before);
        }
    } else {
        assert(all =~= Seq::<int>::empty());
    }
    assert(growing::sifted(records, clusters, c, n) =~= gathering(
        records,
        clusters,
        c,
        n as nat,
    ));
}

/// A split has one part for every cluster that has records, in the order of
/// the clusters: the records of that cluster, in their order.
pub proof fn parts_are_the_clusters_that_have_records(
    records: Seq<(u64, Seq<u32>)>,
    clusters: Seq<int>,
    c: int,
) -> (labels: Seq<int>)
    requires
        records.len() == clusters.len(),
        0 <= c,
    ensures
        labels.len() == growing::parts(records, clusters, c).len(),
        forall|i: int, j: int| 0 <= i < j < labels.len() ==> labels[i] < labels[j],
        forall|i: int|
            0 <= i < labels.len() ==> 0 <= #[trigger] labels[i] < c && growing::parts(
                records,
                clusters,
                c,
            )[i] == gathering(records, clusters, labels[i], records.len()) && growing::parts(
                records,
                clusters,
                c,
            )[i].len() > 0,
        forall|k: int|
            0 <= k < c && gathering(records, clusters, k, records.len()).len() > 0
                ==> #[trigger] labels.contains(k),
    decreases c,
{
    if c > 0 {
        let before = parts_are_the_clusters_that_have_records(records, clusters, c - 1);
        lemma_sifted(records, clusters, c - 1, records.len() as int);
        let part = growing::sifted(records, clusters, c - 1, records.len() as int);
        if part.len() > 0 {
            let labels = before.push(c - 1);
            assert forall|k: int|
                0 <= k < c && gathering(records, clusters, k, records.len()).len()
                    > 0 implies #[trigger] labels.contains(k) by {
                if k < c - 1 {
                    assert(before.contains(k));
                    let i = choose|i: int| 0 <= i < before.len() && before[i] == k;
                    assert(labels[i] == k);
                } else {
                    assert(labels[before.len() as int] == k);
                }
            }
            labels
        } else {
            assert forall|k: int|
                0 <= k < c && gathering(records, clusters, k, records.len()).len()
                    > 0 implies #[trigger] before.contains(k) by {
                assert(k < c - 1);
            }
            before
        }
    } else {
        Seq::empty()
    }
}

/// Before they are clustered, vectors are reduced to as many dimensions as
/// asked for, but to no more than they have and to fewer than there are
/// vectors, and at least to one; what has no more dimensions than that stays as
/// it is.
pub proof fn sketches_have_few_dimensions(
    ar: Arith,
    u: Noise,
    records: Seq<(u64, Seq<u32>)>,
    config: RegionTreeConfig,
    depth: int,
    k: int,
)
    requires
        records.len() > 0,
        1 <= k,
        k == 1 || (k <= config.pca_dim && k <= records[0].1.len() && k < records.len()),
        k + 1 > config.pca_dim || k + 1 > records[0].1.len() || k + 1 >= records.len(),
    ensures
        records[0].1.len() <= k ==> growing::sketched(ar, u, records, config, depth)
            == growing::vectors_of(records),
        records[0].1.len() > k ==> growing::sketched(ar, u, records, config, depth)
            == reduction::reduced(
            ar,
            u,
            growing::vectors_of(records),
            k,
            ((config.seed + depth) % 0x1_0000_0000_0000_0000) as u64,
        ),
{
}

} // verus!
