//! What codes, codebooks, projections, bundles and steering stand for.

use vstd::prelude::*;

use super::angle_cosine;
use super::euclid_squared;
use super::factors;
use super::hashes;
use super::inner;
use super::lemma_total_none;
use super::lemma_total_push;
use super::lemma_total_take;
use super::magnitude;
use super::measures;
use super::number;
use super::sums;
use super::total;
use crate::arith::Arith;
use crate::arith::Noise;
use crate::arith::Op;
use crate::bytes;
use crate::clustering;
use crate::merkle;
use crate::order;
use crate::pq;
use crate::pq::PqCodec;
use crate::projector;
use crate::random;
use crate::steering;
use crate::superpose;
use crate::vectors;

verus! {

/// The `s`-th stretch of `size` coordinates.
pub open spec fn stretch(v: Seq<u32>, size: int, s: int) -> Seq<u32> {
    Seq::new(size as nat, |j: int| v[s * size + j])
}

proof fn lemma_stretch(v: Seq<u32>, size: int, s: int, n: int)
    requires
        0 <= size,
        0 <= s < n,
        v.len() == n * size,
    ensures
        pq::piece(v, size, s) == stretch(v, size, s),
        0 <= s * size,
        (s + 1) * size == s * size + size,
        (s + 1) * size <= v.len(),
{
    assert(0 <= s * size && (s + 1) * size == s * size + size && (s + 1) * size <= n * size)
        by (nonlinear_arith)
        requires
            0 <= size,
            0 <= s < n,
    ;
    assert(pq::piece(v, size, s) =~= stretch(v, size, s));
}

/// The vectors that a codebook is learned from are the same stretch of every
/// training vector.
pub proof fn codebooks_learn_from_stretches(
    training: Seq<Seq<u32>>,
    size: int,
    n: int,
    s: int,
    i: int,
)
    requires
        0 <= size,
        0 <= s < n,
        0 <= i < training.len(),
        training[i].len() == n * size,
    ensures
        pq::pieces(training, size, s).len() == training.len(),
        pq::pieces(training, size, s)[i] == stretch(training[i], size, s),
{
    lemma_stretch(training[i], size, s, n);
}

/// A code stands for the entry of its codebook that is nearest to the stretch
/// of the vector, the first of those that are equally near.
pub proof fn codes_stand_for_the_nearest_entries(
    ar: Arith,
    codec: PqCodec,
    v: Seq<u32>,
    s: int,
    e: int,
)
    requires
        codec.wf(),
        v.len() == codec.dim,
        0 <= s < codec.n_subspaces,
        codec.books()[s].len() <= 0x100,
        0 <= e < codec.books()[s].len(),
        order::lt(
            euclid_squared(ar, stretch(v, codec.sub_dim as int, s), codec.books()[s][e]),
            0x7f7f_ffff,
        ),
    ensures
        codec.encoded(ar, v).len() == codec.n_subspaces,
        codec.encoded(ar, v)[s] < codec.books()[s].len(),
        order::le(
            euclid_squared(
                ar,
                stretch(v, codec.sub_dim as int, s),
                codec.books()[s][codec.encoded(ar, v)[s] as int],
            ),
            euclid_squared(ar, stretch(v, codec.sub_dim as int, s), codec.books()[s][e]),
        ),
        e < codec.encoded(ar, v)[s] ==> order::lt(
            euclid_squared(
                ar,
                stretch(v, codec.sub_dim as int, s),
                codec.books()[s][codec.encoded(ar, v)[s] as int],
            ),
            euclid_squared(ar, stretch(v, codec.sub_dim as int, s), codec.books()[s][e]),
        ),
{
    let size = codec.sub_dim as int;
    lemma_stretch(v, size, s, codec.n_subspaces as int);
    let x = stretch(v, size, s);
    let book = codec.books()[s];
    let d = vectors::distances_from(ar, x, book);
    measures::distances_are_euclidean(ar, x, book[e]);
    assert(d[e] == euclid_squared(ar, x, book[e]));
    vectors::least_is_least(d, d.len() as int, e);
    let c = vectors::least(d);
    measures::distances_are_euclidean(ar, x, book[c]);
    assert(d[c] == euclid_squared(ar, x, book[c]));
    assert(codec.encoded(ar, v)[s] == c);
}

/// Decoding puts the entries that the codes stand for one after the other.
pub proof fn decoding_puts_entries_together(codec: PqCodec, codes: Seq<u8>, s: int, j: int)
    requires
        codec.wf(),
        pq::decodable(codec.books(), codes),
        0 <= s < codec.n_subspaces,
        0 <= j < codec.sub_dim,
    ensures
        codec.decoded(codes).len() == codec.n_subspaces * codec.sub_dim,
        codec.decoded(codes)[s * codec.sub_dim + j] == codec.books()[s][codes[s] as int][j],
{
    let size = codec.sub_dim as int;
    pq::decoding_selects_entries(codec, codes, s);
    lemma_stretch(codec.decoded(codes), size, s, codec.n_subspaces as int);
    assert(stretch(codec.decoded(codes), size, s)[j] == codec.decoded(codes)[s * size + j]);
}

/// The first `n` stretches.
spec fn opening(v: Seq<u32>, size: int, n: int) -> Seq<u32> {
    v.take(n * size)
}

proof fn lemma_by_stretches(
    ar: Arith,
    a: Seq<u32>,
    b: Seq<u32>,
    size: int,
    count: int,
    n: int,
)
    requires
        sums::sums_freely(ar),
        0 <= size,
        0 <= n <= count,
        a.len() == count * size,
        b.len() == count * size,
    ensures
        total(
            ar,
            Seq::new(n as nat, |s: int| inner(ar, stretch(a, size, s), stretch(b, size, s))),
        ) == inner(ar, opening(a, size, n), opening(b, size, n)),
    decreases n,
{
    let parts = Seq::new(n as nat, |s: int| inner(ar, stretch(a, size, s), stretch(b, size, s)));
    if n > 0 {
        lemma_by_stretches(ar, a, b, size, count, n - 1);
        lemma_stretch(a, size, n - 1, count);
        lemma_stretch(b, size, n - 1, count);
        let before = Seq::new(
            (n - 1) as nat,
            |s: int| inner(ar, stretch(a, size, s), stretch(b, size, s)),
        );
        let x = stretch(a, size, n - 1);
        let y = stretch(b, size, n - 1);
        assert(parts =~= before.push(inner(ar, x, y)));
        lemma_total_push(ar, before, inner(ar, x, y));
        let f = factors(ar, opening(a, size, n), opening(b, size, n));
        let g = factors(ar, opening(a, size, n - 1), opening(b, size, n - 1));
        assert(n * size == (n - 1) * size + size) by (nonlinear_arith);
        assert(f =~= g + factors(ar, x, y));
        sums::sums_of_parts_add_up(ar, g, factors(ar, x, y));
    } else {
        assert(n * size == 0) by (nonlinear_arith)
            requires
                n == 0,
        ;
        assert(parts =~= Seq::<u32>::empty());
        assert(factors(ar, opening(a, size, 0), opening(b, size, 0)) =~= Seq::<u32>::empty());
    }
}

proof fn lemma_whole(v: Seq<u32>, size: int, count: int)
    requires
        0 <= count,
        v.len() == count * size,
    ensures
        opening(v, size, count) == v,
{
    assert(v.take(v.len() as int) =~= v);
}

/// The score of a record is the cosine of the angle between the query and the
/// vector that the codes of the record stand for.
pub proof fn scores_are_cosines(ar: Arith, codec: PqCodec, query: Seq<u32>, codes: Seq<u8>)
    requires
        sums::sums_freely(ar),
        codec.wf(),
        query.len() == codec.dim,
        pq::decodable(codec.books(), codes),
    ensures
        pq::codec_score(ar, codec, query, codes) == angle_cosine(ar, query, codec.decoded(codes)),
{
    let size = codec.sub_dim as int;
    let n = codec.n_subspaces as int;
    let v = codec.decoded(codes);
    pq::decoding_selects_entries(codec, codes, 0);
    let dots = pq::piece_dots(ar, codec, query, codes);
    let norms = pq::piece_norms(ar, codec, codes);
    let dots2 = Seq::new(
        n as nat,
        |s: int| inner(ar, stretch(query, size, s), stretch(v, size, s)),
    );
    let norms2 = Seq::new(n as nat, |s: int| inner(ar, stretch(v, size, s), stretch(v, size, s)));
    assert forall|s: int| 0 <= s < n implies #[trigger] dots[s] == dots2[s] && norms[s]
        == norms2[s] by {
        lemma_stretch(query, size, s, n);
        lemma_stretch(v, size, s, n);
        pq::decoding_selects_entries(codec, codes, s);
        sums::fast_products_add_up(ar, stretch(query, size, s), stretch(v, size, s));
        sums::fast_products_add_up(ar, stretch(v, size, s), stretch(v, size, s));
    }
    assert(dots =~= dots2);
    assert forall|s: int| 0 <= s < n implies #[trigger] norms[s] == norms2[s] by {
        assert(dots[s] == dots2[s]);
    }
    assert(norms =~= norms2);
    sums::fast_terms_add_up(ar, dots);
    sums::fast_terms_add_up(ar, norms);
    lemma_by_stretches(ar, query, v, size, n, n);
    lemma_by_stretches(ar, v, v, size, n, n);
    lemma_whole(query, size, n);
    lemma_whole(v, size, n);
    sums::fast_products_add_up(ar, query, query);
}

/// `c` is a center that no other is nearer to `x` than, the first of those
/// that are equally near; the first of all if none is at a distance below the
/// largest number.
pub open spec fn closest(ar: Arith, centers: Seq<Seq<u32>>, x: Seq<u32>, c: int) -> bool {
    &&& 0 <= c < centers.len()
    &&& forall|e: int|
        #![trigger centers[e]]
        0 <= e < centers.len() && order::lt(euclid_squared(ar, x, centers[e]), 0x7f7f_ffff) ==> {
            &&& order::le(
                euclid_squared(ar, x, centers[c]),
                euclid_squared(ar, x, centers[e]),
            )
            &&& e < c ==> order::lt(
                euclid_squared(ar, x, centers[c]),
                euclid_squared(ar, x, centers[e]),
            )
        }
}

/// The places of `c` in `a`.
pub open spec fn places_of(a: Seq<int>, c: int) -> Seq<int> {
    places_among(a, c, a.len())
}

/// The places of `c` among the first `m` of `a`.
pub open spec fn places_among(a: Seq<int>, c: int, m: nat) -> Seq<int> {
    Seq::new(m, |i: int| i).filter(|i: int| a[i] == c)
}

/// Coordinate `d` of those of the vectors that `who` lists.
pub open spec fn column(data: Seq<Seq<u32>>, who: Seq<int>, d: int) -> Seq<u32> {
    Seq::new(who.len(), |m: int| data[who[m]][d])
}

/// The mean of coordinate `d` over those of the vectors that `who` lists.
pub open spec fn mean(ar: Arith, data: Seq<Seq<u32>>, who: Seq<int>, d: int) -> u32 {
    ar(
        Op::Div,
        total(ar, column(data, who, d)),
        number(ar, who.len() as int),
        0,
    )
}

/// `next` comes from `centers` by one round: every vector goes to its closest
/// center, and every center that got any moves to their mean; one that got none
/// moves to a vector.
pub open spec fn relaxes(
    ar: Arith,
    data: Seq<Seq<u32>>,
    centers: Seq<Seq<u32>>,
    next: Seq<Seq<u32>>,
    goes_to: Seq<int>,
) -> bool {
    &&& goes_to.len() == data.len()
    &&& forall|i: int| 0 <= i < data.len() ==> closest(ar, centers, data[i], #[trigger] goes_to[i])
    &&& next.len() == centers.len()
    &&& forall|c: int, d: int|
        #![trigger next[c][d]]
        0 <= c < next.len() && 0 <= d < data[0].len() && places_of(goes_to, c).len() > 0
            ==> next[c][d] == mean(ar, data, places_of(goes_to, c), d)
    &&& forall|c: int|
        0 <= c < next.len() && places_of(goes_to, c).len() == 0 ==> data.contains(#[trigger] next[c])
}

/// What is drawn to pick one of `n` vectors is below `n`.
pub open spec fn picks_below(seed: u64, n: int) -> bool {
    forall|bounds: Seq<u64>|
        bounds.len() > 0 && bounds.last() == n ==> #[trigger] random::drawn(seed, bounds) < n
}

proof fn lemma_pick(data: Seq<Seq<u32>>, seed: u64, t: int)
    requires
        picks_below(seed, data.len() as int),
        data.len() <= u64::MAX,
        0 <= t,
    ensures
        0 <= clustering::pick(seed, data.len() as int, t) < data.len(),
        data.contains(data[clustering::pick(seed, data.len() as int, t)]),
{
    let n = data.len() as u64;
    let bounds = clustering::asked_times(n, t).push(n);
    assert(bounds.last() == data.len());
    assert(random::drawn(seed, bounds) < data.len());
    assert(data[clustering::pick(seed, data.len() as int, t)] == data[random::drawn(
        seed,
        bounds,
    ) as int]);
}

proof fn lemma_idle(a: Seq<int>, c: int)
    ensures
        clustering::idle(a, c) >= 0,
    decreases c,
{
    if c > 0 {
        lemma_idle(a, c - 1);
    }
}

proof fn lemma_rounds_fit(ar: Arith, data: Seq<Seq<u32>>, k: int, seed: u64, i: int)
    requires
        clustering::usable(data),
        picks_below(seed, data.len() as int),
        data.len() <= u64::MAX,
        0 < k,
    ensures
        ({
            let s = clustering::after_rounds(ar, data, k, seed, i);
            &&& s.drawn >= 0
            &&& s.centers.len() == k
            &&& forall|c: int| 0 <= c < k ==> (#[trigger] s.centers[c]).len() >= data[0].len()
        }),
    decreases i,
{
    let s = clustering::after_rounds(ar, data, k, seed, i);
    let n = data.len() as int;
    if i <= 0 {
        assert forall|c: int| 0 <= c < k implies (#[trigger] s.centers[c]).len() >= data[0].len() by {
            lemma_pick(data, seed, c);
            assert(data[clustering::pick(seed, n, c)].len() >= data[0].len());
        }
    } else {
        lemma_rounds_fit(ar, data, k, seed, i - 1);
        let before = clustering::after_rounds(ar, data, k, seed, i - 1);
        let a = clustering::assigned(ar, data, before.centers);
        lemma_idle(a, k);
        assert forall|c: int| 0 <= c < k implies (#[trigger] s.centers[c]).len() >= data[0].len() by {
            lemma_idle(a, c);
            lemma_pick(data, seed, before.drawn + clustering::idle(a, c));
            let p = clustering::pick(seed, n, before.drawn + clustering::idle(a, c));
            assert(data[p].len() >= data[0].len());
            assert(before.centers[c].len() >= data[0].len());
        }
    }
}

/// Clustering starts from vectors that are drawn, as many as asked for but at
/// least one and at most all, and goes through the rounds asked for, at least
/// one.
pub proof fn clustering_relaxes_once_per_round(
    ar: Arith,
    data: Seq<Seq<u32>>,
    k: int,
    iterations: int,
    seed: u64,
)
    requires
        clustering::usable(data),
        picks_below(seed, data.len() as int),
        data.len() <= u64::MAX,
    ensures
        clustering::centroids_of(ar, data, k, iterations, seed).len() == if k < 1 {
            1
        } else if k > data.len() {
            data.len() as int
        } else {
            k
        },
        iterations <= 1 ==> exists|start: Seq<Seq<u32>>, goes_to: Seq<int>|
            #![trigger relaxes(
                ar,
                data,
                start,
                clustering::centroids_of(ar, data, k, iterations, seed),
                goes_to,
            )]
            {
                &&& forall|c: int| 0 <= c < start.len() ==> data.contains(#[trigger] start[c])
                &&& relaxes(
                    ar,
                    data,
                    start,
                    clustering::centroids_of(ar, data, k, iterations, seed),
                    goes_to,
                )
            },
        iterations >= 1 ==> exists|goes_to: Seq<int>|
            #[trigger] relaxes(
                ar,
                data,
                clustering::centroids_of(ar, data, k, iterations, seed),
                clustering::centroids_of(ar, data, k, iterations + 1, seed),
                goes_to,
            ),
{
    let n = clustering::cluster_count(data.len() as int, k);
    let first = clustering::after_rounds(ar, data, n, seed, 0);
    let rounds = if iterations >= 1 {
        iterations
    } else {
        1
    };
    let now = clustering::after_rounds(ar, data, n, seed, rounds);
    lemma_rounds_fit(ar, data, n, seed, 0);
    lemma_rounds_fit(ar, data, n, seed, rounds);
    if iterations <= 1 {
        lemma_round(ar, data, seed, first);
        assert forall|c: int| 0 <= c < first.centers.len() implies data.contains(
            #[trigger] first.centers[c],
        ) by {
            lemma_pick(data, seed, c);
        }
        assert(now == clustering::round(ar, data, seed, first));
        assert(relaxes(
            ar,
            data,
            first.centers,
            clustering::centroids_of(ar, data, k, iterations, seed),
            clustering::assigned(ar, data, first.centers),
        ));
    }
    if iterations >= 1 {
        lemma_round(ar, data, seed, now);
        assert(clustering::after_rounds(ar, data, n, seed, rounds + 1) == clustering::round(
            ar,
            data,
            seed,
            now,
        ));
        assert(relaxes(
            ar,
            data,
            clustering::centroids_of(ar, data, k, iterations, seed),
            clustering::centroids_of(ar, data, k, iterations + 1, seed),
            clustering::assigned(ar, data, now.centers),
        ));
    }
}

proof fn lemma_members(ar: Arith, data: Seq<Seq<u32>>, a: Seq<int>, c: int, d: int, m: int)
    requires
        0 <= m <= a.len(),
        a.len() == data.len(),
    ensures
        clustering::members(a, c, m) == places_among(a, c, m as nat).len(),
        clustering::sum_of(ar, data, a, c, d, m) == total(
            ar,
            column(data, places_among(a, c, m as nat), d),
        ),
    decreases m,
{
    reveal(Seq::filter);
    let who = places_among(a, c, m as nat);
    let all = Seq::new(m as nat, |i: int| i);
    if m > 0 {
        lemma_members(ar, data, a, c, d, m - 1);
        let before = places_among(a, c, (m - 1) as nat);
        assert(all.drop_last() =~= Seq::new((m - 1) as nat, |i: int| i));
        assert(all.last() == m - 1);
        if a[m - 1] == c {
            assert(who =~= before.push(m - 1));
            assert(column(data, who, d) =~= column(data, before, d).push(data[m - 1][d]));
            lemma_total_push(ar, column(data, before, d), data[m - 1][d]);
        } else {
            assert(who =~= before);
        }
    } else {
        assert(all =~= Seq::<int>::empty());
        assert(column(data, who, d) =~= Seq::<u32>::empty());
    }
}

proof fn lemma_round(ar: Arith, data: Seq<Seq<u32>>, seed: u64, s: clustering::Clusters)
    requires
        data.len() > 0,
        data.len() <= u64::MAX,
        picks_below(seed, data.len() as int),
        s.drawn >= 0,
        s.centers.len() > 0,
        forall|c: int| 0 <= c < s.centers.len() ==> (#[trigger] s.centers[c]).len() >= data[0].len(),
    ensures
        relaxes(
            ar,
            data,
            s.centers,
            clustering::round(ar, data, seed, s).centers,
            clustering::assigned(ar, data, s.centers),
        ),
{
    let a = clustering::assigned(ar, data, s.centers);
    let next = clustering::round(ar, data, seed, s).centers;
    assert forall|i: int| 0 <= i < data.len() implies closest(
        ar,
        s.centers,
        data[i],
        #[trigger] a[i],
    ) by {
        lemma_closest(ar, s.centers, data[i]);
    }
    assert forall|c: int, d: int|
        #![trigger next[c][d]]
        0 <= c < next.len() && 0 <= d < data[0].len() && places_of(a, c).len()
            > 0 implies next[c][d] == mean(ar, data, places_of(a, c), d) by {
        lemma_members(ar, data, a, c, d, a.len() as int);
        assert(s.centers[c].len() >= data[0].len());
    }
    assert forall|c: int| 0 <= c < next.len() && places_of(a, c).len() == 0 implies data.contains(
        #[trigger] next[c],
    ) by {
        lemma_members(ar, data, a, c, 0, a.len() as int);
        lemma_idle(a, c);
        lemma_pick(data, seed, s.drawn + clustering::idle(a, c));
    }
}

pub proof fn lemma_closest(ar: Arith, centers: Seq<Seq<u32>>, x: Seq<u32>)
    requires
        centers.len() > 0,
    ensures
        closest(ar, centers, x, vectors::least(vectors::distances_from(ar, x, centers))),
{
    let d = vectors::distances_from(ar, x, centers);
    let c = vectors::least(d);
    vectors::lemma_least_counts(d, d.len() as int);
    assert forall|e: int|
        #![trigger centers[e]]
        0 <= e < centers.len() && order::lt(
            euclid_squared(ar, x, centers[e]),
            0x7f7f_ffff,
        ) implies order::le(euclid_squared(ar, x, centers[c]), euclid_squared(ar, x, centers[e]))
        && (e < c ==> order::lt(
        euclid_squared(ar, x, centers[c]),
        euclid_squared(ar, x, centers[e]),
    )) by {
        measures::distances_are_euclidean(ar, x, centers[e]);
        measures::distances_are_euclidean(ar, x, centers[c]);
        assert(d[e] == euclid_squared(ar, x, centers[e]));
        vectors::least_is_least(d, d.len() as int, e);
        assert(d[c] == euclid_squared(ar, x, centers[c]));
    }
}

/// The entries of a fresh projection are independent normal numbers, made of
/// two uniform ones each, over the root of the number of rows.
pub proof fn fresh_projections_are_scaled_normals(
    ar: Arith,
    u: Noise,
    in_dim: int,
    out_dim: int,
    seed: u64,
    e: int,
)
    requires
        0 <= e < in_dim * out_dim,
    ensures
        projector::fresh_matrix(ar, u, in_dim, out_dim, seed).len() == in_dim * out_dim,
        projector::fresh_matrix(ar, u, in_dim, out_dim, seed)[e] == ({
            let a = u(seed, (2 * e) as u64);
            let b = u(seed, (2 * e + 1) as u64);
            let radius = ar(Op::Sqrt, ar(Op::Mul, 0xc000_0000, ar(Op::Ln, a, 0, 0), 0), 0, 0);
            let angle = ar(Op::Mul, 0x40c9_0fdb, b, 0);
            let scale = ar(
                Op::Div,
                0x3f80_0000,
                ar(Op::Sqrt, number(ar, out_dim), 0, 0),
                0,
            );
            ar(Op::Mul, ar(Op::Mul, radius, ar(Op::Cos, angle, 0, 0), 0), scale, 0)
        }),
{
}

proof fn lemma_convolved(ar: Arith, a: Seq<u32>, b: Seq<u32>, i: int, m: int)
    requires
        0 <= m <= a.len(),
    ensures
        superpose::convolved(ar, a, b, i, m) == total(ar, crossing(ar, a, b, i).take(m)),
        superpose::correlated(ar, a, b, i, m) == total(ar, aligned(ar, a, b, i).take(m)),
    decreases m,
{
    if m > 0 {
        lemma_convolved(ar, a, b, i, m - 1);
        lemma_total_take(ar, crossing(ar, a, b, i), m);
        lemma_total_take(ar, aligned(ar, a, b, i), m);
    } else {
        lemma_total_none(ar, crossing(ar, a, b, i));
        lemma_total_none(ar, aligned(ar, a, b, i));
    }
}

/// The products of the coordinates whose places add up to `i`, around the
/// circle.
pub open spec fn crossing(ar: Arith, a: Seq<u32>, b: Seq<u32>, i: int) -> Seq<u32> {
    Seq::new(a.len(), |j: int| ar(Op::Mul, a[j], b[(i - j) % (a.len() as int)], 0))
}

/// The products of the coordinates whose places are `i` apart, around the
/// circle.
pub open spec fn aligned(ar: Arith, a: Seq<u32>, b: Seq<u32>, i: int) -> Seq<u32> {
    Seq::new(a.len(), |j: int| ar(Op::Mul, a[j], b[(i + j) % (a.len() as int)], 0))
}

/// Binding adds up the products of the coordinates whose places add up to the
/// same place; unbinding those of the coordinates that are as far apart.
pub proof fn binding_adds_up_around_the_circle(ar: Arith, a: Seq<u32>, b: Seq<u32>, i: int)
    requires
        0 <= i < a.len(),
    ensures
        superpose::convolution(ar, a, b).len() == a.len(),
        superpose::correlation(ar, a, b).len() == a.len(),
        superpose::convolution(ar, a, b)[i] == total(ar, crossing(ar, a, b, i)),
        superpose::correlation(ar, a, b)[i] == total(ar, aligned(ar, a, b, i)),
{
    let n = a.len() as int;
    lemma_convolved(ar, a, b, i, n);
    assert(crossing(ar, a, b, i).take(n) =~= crossing(ar, a, b, i));
    assert(aligned(ar, a, b, i).take(n) =~= aligned(ar, a, b, i));
}

/// Bundling adds coordinate by coordinate.
pub proof fn bundling_adds(ar: Arith, a: Seq<u32>, b: Seq<u32>, i: int)
    requires
        0 <= i < a.len(),
    ensures
        superpose::added(ar, a, b).len() == a.len(),
        superpose::added(ar, a, b)[i] == ar(Op::Add, a[i], b[i], 0),
{
}

/// Steering moves every coordinate along the direction, by the strength times
/// the weight; a weight that is not above zero moves nothing.
pub proof fn steering_moves_along_the_direction(
    ar: Arith,
    state: Seq<u32>,
    direction: Seq<u32>,
    alpha: u32,
    weight: u32,
    i: int,
)
    requires
        0 <= i < state.len(),
    ensures
        steering::steered(ar, state, direction, alpha, weight).len() == state.len(),
        steering::steered(ar, state, direction, alpha, weight)[i] == if order::le(weight, 0) {
            state[i]
        } else {
            ar(
                Op::Add,
                state[i],
                ar(Op::Mul, ar(Op::Mul, alpha, weight, 0), direction[i], 0),
                0,
            )
        },
{
}

/// A direction deviates from unit length by the difference of its length and
/// one, without its sign.
pub proof fn deviations_are_from_unit_length(ar: Arith, direction: Seq<u32>)
    ensures
        steering::deviation(ar, direction) == ar(
            Op::Sub,
            magnitude(ar, direction),
            0x3f80_0000,
            0,
        ) % 0x8000_0000,
{
    measures::lengths_are_euclidean(ar, direction);
}

/// A steering vector verifies if its length is within the tolerance of one and
/// its commitment is the hash of the bytes of its direction and its strength.
pub proof fn steering_verifies_length_and_commitment(
    ar: Arith,
    v: steering::SteeringVector,
    tolerance: u32,
)
    ensures
        v.verifies(ar, tolerance) <==> order::le(
            (ar(Op::Sub, magnitude(ar, v.direction@), 0x3f80_0000, 0) % 0x8000_0000) as u32,
            tolerance,
        ) && v.commitment@ == merkle::blake3_of(
            hashes::little_endian(v.direction@) + hashes::little_endian(seq![v.alpha]),
        )@,
{
    deviations_are_from_unit_length(ar, v.direction@);
    hashes::lemma_flat(v.direction@, v.direction@.len() as int);
    hashes::lemma_flat(seq![v.alpha], 1);
    let s = hashes::little_endian(v.direction@);
    let t = hashes::little_endian(seq![v.alpha]);
    assert(s.take(4 * (v.direction@.len() as int)) =~= s);
    assert(t.take(4) =~= t);
    assert(bytes::flat(seq![v.alpha], 0) =~= Seq::<u8>::empty());
    assert(bytes::flat(seq![v.alpha], 1) =~= bytes::le4(v.alpha));
}

/// A frozen steering vector is the number of its coordinates, the coordinates
/// and the strength, each in four bytes with the lowest first.
pub proof fn payloads_are_little_endian(direction: Seq<u32>, alpha: u32)
    requires
        direction.len() <= u32::MAX,
    ensures
        steering::payload_of(direction, alpha) == hashes::little_endian(
            seq![direction.len() as u32] + direction + seq![alpha],
        ),
{
    let n = direction.len() as u32;
    let all = seq![n] + direction + seq![alpha];
    hashes::lemma_flat(direction, direction.len() as int);
    let s = hashes::little_endian(direction);
    assert(s.take(4 * (direction.len() as int)) =~= s);
    let whole = hashes::little_endian(all);
    hashes::lemma_flat(seq![n], 1);
    hashes::lemma_flat(seq![alpha], 1);
    let h = hashes::little_endian(seq![n]);
    let t = hashes::little_endian(seq![alpha]);
    assert(h.take(4) =~= h && t.take(4) =~= t);
    assert(bytes::flat(seq![n], 0) =~= Seq::<u8>::empty());
    assert(bytes::flat(seq![alpha], 0) =~= Seq::<u8>::empty());
    assert(bytes::flat(seq![n], 1) =~= bytes::le4(n));
    assert(bytes::flat(seq![alpha], 1) =~= bytes::le4(alpha));
    assert forall|k: int| 0 <= k < whole.len() implies (h + s + t)[k] == whole[k] by {
        let m = 4 + 4 * direction.len();
        if k < 4 {
            assert(all[k / 4] == n);
        } else if k < m {
            assert((k - 4) / 4 == k / 4 - 1 && (k - 4) % 4 == k % 4);
            assert(all[k / 4] == direction[k / 4 - 1]);
        } else {
            assert(k / 4 == 1 + direction.len());
            assert((k - m) / 4 == 0 && (k - m) % 4 == k % 4);
            assert(all[k / 4] == alpha);
        }
    }
    assert(steering::payload_of(direction, alpha) =~= h + s + t);
    assert(h + s + t =~= whole);
}

/// The commitment to a projection is the hash of the bytes of its matrix.
pub proof fn projections_commit_to_their_matrix(matrix: Seq<u32>)
    ensures
        projector::commitment_to(matrix) == merkle::blake3_of(hashes::little_endian(matrix))@,
{
    hashes::lemma_flat(matrix, matrix.len() as int);
    let s = hashes::little_endian(matrix);
    assert(s.take(4 * (matrix.len() as int)) =~= s);
}

} // verus!
