//! Principal components: the directions in which a set of vectors varies
//! most, found one after the other by power iteration.

use vstd::prelude::*;

use crate::arith;
use crate::arith::Arith;
use crate::arith::Noise;
use crate::arith::Op;
use crate::clustering;
use crate::order;
use crate::simd;
use crate::vectors;
use crate::vectors::rows;

verus! {

/// The most rounds of power iteration for one direction.
pub const MAX_ROUNDS: usize = 200;

/// The bit pattern of `1e-6`: how near to one the cosine of two rounds has to
/// be for the iteration to end.
pub const CONVERGED: u32 = 0x3586_37bd;

/// The bit pattern of `1e-12`: what is shorter is not scaled.
pub const VANISHING: u32 = 0x2b8c_bccc;

/// The sum of coordinate `d` over the first `m` vectors.
pub open spec fn column_sum(ar: Arith, data: Seq<Seq<u32>>, d: int, m: int) -> u32
    decreases m,
{
    if m <= 0 {
        order::ZERO
    } else {
        ar(Op::Add, column_sum(ar, data, d, m - 1), data[m - 1][d], 0)
    }
}

/// The mean of coordinate `d`.
pub open spec fn column_mean(ar: Arith, data: Seq<Seq<u32>>, d: int) -> u32 {
    let n = data.len() as int;
    ar(
        Op::Mul,
        column_sum(ar, data, d, n),
        ar(Op::Div, order::ONE, arith::counted(ar, n), 0),
        0,
    )
}

/// The vectors with the mean taken off.
pub open spec fn centered(ar: Arith, data: Seq<Seq<u32>>) -> Seq<Seq<u32>> {
    Seq::new(
        data.len(),
        |i: int|
            Seq::new(
                data[0].len(),
                |d: int| ar(Op::Sub, data[i][d], column_mean(ar, data, d), 0),
            ),
    )
}

/// The sum of the products of coordinates `i` and `j` over the first `m`
/// vectors.
pub open spec fn product_sum(ar: Arith, data: Seq<Seq<u32>>, i: int, j: int, m: int) -> u32
    decreases m,
{
    if m <= 0 {
        order::ZERO
    } else {
        ar(
            Op::Add,
            product_sum(ar, data, i, j, m - 1),
            ar(Op::Mul, data[m - 1][i], data[m - 1][j], 0),
            0,
        )
    }
}

/// What covariances are divided by: one less than the number of vectors, at
/// least one.
pub open spec fn degrees_of_freedom(ar: Arith, n: int) -> u32 {
    order::raised(ar(Op::Sub, arith::counted(ar, n), order::ONE, 0), order::ONE)
}

/// The covariance of coordinates `i` and `j` of centered vectors.
pub open spec fn covariance_at(ar: Arith, data: Seq<Seq<u32>>, i: int, j: int) -> u32 {
    let n = data.len() as int;
    ar(
        Op::Div,
        if i <= j {
            product_sum(ar, data, i, j, n)
        } else {
            product_sum(ar, data, j, i, n)
        },
        degrees_of_freedom(ar, n),
        0,
    )
}

/// The covariances of centered vectors.
pub open spec fn covariance(ar: Arith, data: Seq<Seq<u32>>, dim: int) -> Seq<Seq<u32>> {
    Seq::new(
        dim as nat,
        |i: int| Seq::new(dim as nat, |j: int| covariance_at(ar, data, i, j)),
    )
}

/// A matrix times a vector.
pub open spec fn applied(ar: Arith, m: Seq<Seq<u32>>, v: Seq<u32>) -> Seq<u32> {
    Seq::new(m.len(), |i: int| simd::dot_product(ar, m[i], v))
}

/// One round of power iteration.
pub open spec fn next_round(ar: Arith, m: Seq<Seq<u32>>, v: Seq<u32>) -> Seq<u32> {
    vectors::scaled_to_unit(ar, applied(ar, m, v), VANISHING)
}

/// Whether two rounds point the same way, or opposite ways.
pub open spec fn settled(ar: Arith, v: Seq<u32>, w: Seq<u32>) -> bool {
    let cosine = order::abs(simd::dot_product(ar, v, w));
    order::lt(order::abs(ar(Op::Sub, cosine, order::ONE, 0)), CONVERGED)
}

/// The direction that power iteration ends in, from `v` in round `k`.
pub open spec fn dominant(ar: Arith, m: Seq<Seq<u32>>, v: Seq<u32>, k: int) -> Seq<u32>
    decreases MAX_ROUNDS - k,
{
    if k >= MAX_ROUNDS {
        v
    } else {
        let w = next_round(ar, m, v);
        if settled(ar, v, w) {
            w
        } else {
            dominant(ar, m, w, k + 1)
        }
    }
}

/// The direction that iteration number `c` starts from.
pub open spec fn starting(ar: Arith, u: Noise, seed: u64, dim: int, c: int) -> Seq<u32> {
    vectors::scaled_to_unit(
        ar,
        Seq::new(dim as nat, |i: int| u(seed, (c * dim + i) as u64)),
        VANISHING,
    )
}

/// The matrix without what varies in the direction `v`.
pub open spec fn deflated(ar: Arith, m: Seq<Seq<u32>>, v: Seq<u32>) -> Seq<Seq<u32>> {
    let weight = simd::dot_product(ar, v, applied(ar, m, v));
    Seq::new(
        m.len(),
        |i: int|
            Seq::new(
                m[i].len(),
                |j: int|
                    ar(
                        Op::Sub,
                        m[i][j],
                        ar(Op::Mul, ar(Op::Mul, weight, v[i], 0), v[j], 0),
                        0,
                    ),
            ),
    )
}

/// The matrix after the first `c` directions have been taken off, and those
/// directions.
pub open spec fn extracted(
    ar: Arith,
    u: Noise,
    seed: u64,
    m: Seq<Seq<u32>>,
    c: int,
) -> (Seq<Seq<u32>>, Seq<Seq<u32>>)
    decreases c,
{
    if c <= 0 {
        (m, Seq::empty())
    } else {
        let (rest, found) = extracted(ar, u, seed, m, c - 1);
        let v = dominant(ar, rest, starting(ar, u, seed, m.len() as int, c - 1), 0);
        (deflated(ar, rest, v), found.push(v))
    }
}

/// The coordinates of the vectors along the first `n_components` directions.
pub open spec fn reduced(
    ar: Arith,
    u: Noise,
    data: Seq<Seq<u32>>,
    n_components: int,
    seed: u64,
) -> Seq<Seq<u32>> {
    let dim = data[0].len() as int;
    let c = centered(ar, data);
    let directions = extracted(ar, u, seed, covariance(ar, c, dim), n_components).1;
    Seq::new(
        data.len(),
        |i: int|
            Seq::new(
                n_components as nat,
                |k: int| simd::dot_product(ar, c[i], directions[k]),
            ),
    )
}

/// A square matrix of `dim` rows.
pub open spec fn square(m: Seq<Seq<u32>>, dim: int) -> bool {
    m.len() == dim && clustering::even(m, dim)
}

fn mean<F: Fn(Op, u32, u32, u32) -> u32>(fpu: &F, data: &Vec<Vec<u32>>, inverse: u32, d: usize) -> (r:
    u32)
    requires
        arith::is_unit(*fpu),
        clustering::usable(rows(data@)),
        d < rows(data@)[0].len(),
        inverse == arith::arith(*fpu)(
            Op::Div,
            order::ONE,
            arith::counted(arith::arith(*fpu), data@.len() as int),
            0,
        ),
    ensures
        r == column_mean(arith::arith(*fpu), rows(data@), d as int),
{
    let mut sum: u32 = order::ZERO;
    let mut m: usize = 0;
    while m < data.len()
        invariant
            m <= data@.len(),
            arith::is_unit(*fpu),
            clustering::usable(rows(data@)),
            d < rows(data@)[0].len(),
            sum == column_sum(arith::arith(*fpu), rows(data@), d as int, m as int),
        decreases data@.len() - m,
    {
        assert(rows(data@)[m as int] == data@[m as int]@);
        sum = arith::binary(fpu, Op::Add, sum, data[m][d]);
        m += 1;
    }
    arith::binary(fpu, Op::Mul, sum, inverse)
}

fn center<F: Fn(Op, u32, u32, u32) -> u32>(fpu: &F, data: &Vec<Vec<u32>>) -> (r: Vec<Vec<u32>>)
    requires
        arith::is_unit(*fpu),
        clustering::usable(rows(data@)),
    ensures
        rows(r@) == centered(arith::arith(*fpu), rows(data@)),
{
    let ghost ar = arith::arith(*fpu);
    let ghost all = rows(data@);
    let dim: usize = data[0].len();
    assert(all[0] == data@[0]@);
    let inverse: u32 = arith::binary(fpu, Op::Div, order::ONE, arith::count(fpu, data.len()));
    let mut means: Vec<u32> = Vec::new();
    let mut d: usize = 0;
    while d < dim
        invariant
            d <= dim,
            dim == all[0].len(),
            all == rows(data@),
            arith::is_unit(*fpu),
            ar == arith::arith(*fpu),
            clustering::usable(all),
            inverse == ar(Op::Div, order::ONE, arith::counted(ar, data@.len() as int), 0),
            means@.len() == d,
            forall|i: int| 0 <= i < d ==> #[trigger] means@[i] == column_mean(ar, all, i),
        decreases dim - d,
    {
        means.push(mean(fpu, data, inverse, d));
        d += 1;
    }
    let ghost target = centered(ar, all);
    let mut r: Vec<Vec<u32>> = Vec::new();
    let mut i: usize = 0;
    while i < data.len()
        invariant
            i <= data@.len(),
            dim == all[0].len(),
            all == rows(data@),
            arith::is_unit(*fpu),
            ar == arith::arith(*fpu),
            clustering::usable(all),
            means@.len() == dim,
            forall|k: int| 0 <= k < dim ==> #[trigger] means@[k] == column_mean(ar, all, k),
            target == centered(ar, all),
            r@.len() == i,
            forall|k: int| 0 <= k < i ==> (#[trigger] r@[k])@ == target[k],
        decreases data@.len() - i,
    {
        let mut row: Vec<u32> = Vec::new();
        assert(all[i as int] == data@[i as int]@);
        let mut k: usize = 0;
        while k < dim
            invariant
                i < data@.len(),
                k <= dim,
                dim == all[0].len(),
                all[i as int] == data@[i as int]@,
                all[i as int].len() >= dim,
                arith::is_unit(*fpu),
                ar == arith::arith(*fpu),
                means@.len() == dim,
                forall|k: int| 0 <= k < dim ==> #[trigger] means@[k] == column_mean(ar, all, k),
                row@.len() == k,
                forall|j: int|
                    0 <= j < k ==> #[trigger] row@[j] == ar(
                        Op::Sub,
                        all[i as int][j],
                        column_mean(ar, all, j),
                        0,
                    ),
            decreases dim - k,
        {
            row.push(arith::binary(fpu, Op::Sub, data[i][k], means[k]));
            k += 1;
        }
        assert(row@ =~= target[i as int]);
        r.push(row);
        i += 1;
    }
    assert(rows(r@) =~= target);
    r
}

fn covary<F: Fn(Op, u32, u32, u32) -> u32>(
    fpu: &F,
    data: &Vec<Vec<u32>>,
    dim: usize,
    divisor: u32,
    i: usize,
    j: usize,
) -> (r: u32)
    requires
        arith::is_unit(*fpu),
        clustering::even(rows(data@), dim as int),
        i < dim,
        j < dim,
        divisor == degrees_of_freedom(arith::arith(*fpu), data@.len() as int),
    ensures
        r == covariance_at(arith::arith(*fpu), rows(data@), i as int, j as int),
{
    let (low, high): (usize, usize) = if i <= j {
        (i, j)
    } else {
        (j, i)
    };
    let mut sum: u32 = order::ZERO;
    let mut m: usize = 0;
    while m < data.len()
        invariant
            m <= data@.len(),
            low < dim,
            high < dim,
            arith::is_unit(*fpu),
            clustering::even(rows(data@), dim as int),
            sum == product_sum(
                arith::arith(*fpu),
                rows(data@),
                low as int,
                high as int,
                m as int,
            ),
        decreases data@.len() - m,
    {
        assert(rows(data@)[m as int] == data@[m as int]@);
        let product: u32 = arith::binary(fpu, Op::Mul, data[m][low], data[m][high]);
        sum = arith::binary(fpu, Op::Add, sum, product);
        m += 1;
    }
    arith::binary(fpu, Op::Div, sum, divisor)
}

fn covariances<F: Fn(Op, u32, u32, u32) -> u32>(fpu: &F, data: &Vec<Vec<u32>>, dim: usize) -> (r: Vec<
    Vec<u32>,
>)
    requires
        arith::is_unit(*fpu),
        clustering::even(rows(data@), dim as int),
    ensures
        rows(r@) == covariance(arith::arith(*fpu), rows(data@), dim as int),
{
    let ghost ar = arith::arith(*fpu);
    let ghost target = covariance(ar, rows(data@), dim as int);
    let less_one: u32 = arith::binary(
        fpu,
        Op::Sub,
        arith::count(fpu, data.len()),
        order::ONE,
    );
    let divisor: u32 = order::raise(less_one, order::ONE);
    let mut r: Vec<Vec<u32>> = Vec::new();
    let mut i: usize = 0;
    while i < dim
        invariant
            i <= dim,
            arith::is_unit(*fpu),
            ar == arith::arith(*fpu),
            clustering::even(rows(data@), dim as int),
            divisor == degrees_of_freedom(ar, data@.len() as int),
            target == covariance(ar, rows(data@), dim as int),
            r@.len() == i,
            forall|k: int| 0 <= k < i ==> (#[trigger] r@[k])@ == target[k],
        decreases dim - i,
    {
        let mut row: Vec<u32> = Vec::new();
        let mut j: usize = 0;
        while j < dim
            invariant
                i < dim,
                j <= dim,
                arith::is_unit(*fpu),
                ar == arith::arith(*fpu),
                clustering::even(rows(data@), dim as int),
                divisor == degrees_of_freedom(ar, data@.len() as int),
                row@.len() == j,
                forall|k: int|
                    0 <= k < j ==> #[trigger] row@[k] == covariance_at(ar, rows(data@), i as int, k),
            decreases dim - j,
        {
            row.push(covary(fpu, data, dim, divisor, i, j));
            j += 1;
        }
        assert(row@ =~= target[i as int]);
        r.push(row);
        i += 1;
    }
    assert(rows(r@) =~= target);
    r
}

fn apply<F: Fn(Op, u32, u32, u32) -> u32>(fpu: &F, m: &Vec<Vec<u32>>, v: &Vec<u32>) -> (r: Vec<u32>)
    requires
        arith::is_unit(*fpu),
        clustering::even(rows(m@), v@.len() as int),
    ensures
        r@ == applied(arith::arith(*fpu), rows(m@), v@),
{
    let ghost target = applied(arith::arith(*fpu), rows(m@), v@);
    let mut r: Vec<u32> = Vec::new();
    let mut i: usize = 0;
    while i < m.len()
        invariant
            i <= m@.len(),
            arith::is_unit(*fpu),
            clustering::even(rows(m@), v@.len() as int),
            target == applied(arith::arith(*fpu), rows(m@), v@),
            r@.len() == i,
            forall|k: int| 0 <= k < i ==> #[trigger] r@[k] == target[k],
        decreases m@.len() - i,
    {
        assert(rows(m@)[i as int] == m@[i as int]@);
        r.push(simd::simd_dot_f32(fpu, &m[i], v));
        i += 1;
    }
    assert(r@ =~= target);
    r
}

fn power_iterate<F: Fn(Op, u32, u32, u32) -> u32>(
    fpu: &F,
    m: &Vec<Vec<u32>>,
    start: Vec<u32>,
    dim: usize,
) -> (r: Vec<u32>)
    requires
        arith::is_unit(*fpu),
        square(rows(m@), dim as int),
        start@.len() == dim,
    ensures
        r@ == dominant(arith::arith(*fpu), rows(m@), start@, 0),
        r@.len() == dim,
{
    let ghost ar = arith::arith(*fpu);
    let mut v: Vec<u32> = start;
    let mut k: usize = 0;
    while k < MAX_ROUNDS
        invariant
            k <= MAX_ROUNDS,
            arith::is_unit(*fpu),
            ar == arith::arith(*fpu),
            square(rows(m@), dim as int),
            v@.len() == dim,
            dominant(ar, rows(m@), v@, k as int) == dominant(ar, rows(m@), start@, 0),
        decreases MAX_ROUNDS - k,
    {
        let image: Vec<u32> = apply(fpu, m, &v);
        let w: Vec<u32> = vectors::normalize(fpu, image, VANISHING);
        let cosine: u32 = order::absolute(simd::simd_dot_f32(fpu, &v, &w));
        let off: u32 = order::absolute(arith::binary(fpu, Op::Sub, cosine, order::ONE));
        let converged: bool = order::less(off, CONVERGED);
        v = w;
        if converged {
            return v;
        }
        k += 1;
    }
    v
}

fn deflate<F: Fn(Op, u32, u32, u32) -> u32>(fpu: &F, m: &Vec<Vec<u32>>, v: &Vec<u32>) -> (r: Vec<
    Vec<u32>,
>)
    requires
        arith::is_unit(*fpu),
        square(rows(m@), v@.len() as int),
    ensures
        rows(r@) == deflated(arith::arith(*fpu), rows(m@), v@),
{
    let ghost ar = arith::arith(*fpu);
    let ghost target = deflated(ar, rows(m@), v@);
    let image: Vec<u32> = apply(fpu, m, v);
    let weight: u32 = simd::simd_dot_f32(fpu, v, &image);
    let dim: usize = v.len();
    let mut r: Vec<Vec<u32>> = Vec::new();
    let mut i: usize = 0;
    while i < dim
        invariant
            i <= dim,
            dim == v@.len(),
            arith::is_unit(*fpu),
            ar == arith::arith(*fpu),
            square(rows(m@), dim as int),
            weight == simd::dot_product(ar, v@, applied(ar, rows(m@), v@)),
            target == deflated(ar, rows(m@), v@),
            r@.len() == i,
            forall|k: int| 0 <= k < i ==> (#[trigger] r@[k])@ == target[k],
        decreases dim - i,
    {
        assert(rows(m@)[i as int] == m@[i as int]@);
        assert(rows(m@)[i as int].len() == dim);
        let scale: u32 = arith::binary(fpu, Op::Mul, weight, v[i]);
        let mut row: Vec<u32> = Vec::new();
        let mut j: usize = 0;
        while j < dim
            invariant
                i < dim,
                j <= dim,
                dim == v@.len(),
                m@.len() == dim,
                m@[i as int]@.len() == dim,
                rows(m@)[i as int] == m@[i as int]@,
                arith::is_unit(*fpu),
                ar == arith::arith(*fpu),
                scale == ar(Op::Mul, weight, v@[i as int], 0),
                row@.len() == j,
                forall|k: int|
                    0 <= k < j ==> #[trigger] row@[k] == ar(
                        Op::Sub,
                        m@[i as int]@[k],
                        ar(Op::Mul, scale, v@[k], 0),
                        0,
                    ),
            decreases dim - j,
        {
            let taken: u32 = arith::binary(fpu, Op::Mul, scale, v[j]);
            row.push(arith::binary(fpu, Op::Sub, m[i][j], taken));
            j += 1;
        }
        assert(row@ =~= target[i as int]);
        r.push(row);
        i += 1;
    }
    assert(rows(r@) =~= target);
    r
}

fn start_at<F: Fn(Op, u32, u32, u32) -> u32, U: Fn(u64, u64) -> u32>(
    fpu: &F,
    uniform: &U,
    seed: u64,
    dim: usize,
    c: usize,
) -> (r: Vec<u32>)
    requires
        arith::is_unit(*fpu),
        arith::is_source(*uniform),
        (c + 1) * dim <= usize::MAX,
    ensures
        r@ == starting(
            arith::arith(*fpu),
            arith::noise(*uniform),
            seed,
            dim as int,
            c as int,
        ),
        r@.len() == dim,
{
    let ghost u = arith::noise(*uniform);
    let mut v: Vec<u32> = Vec::new();
    proof {
        assert((c + 1) * dim == c * dim + dim) by (nonlinear_arith);
        assert(0 <= c * dim) by (nonlinear_arith);
    }
    let base: usize = c * dim;
    let mut i: usize = 0;
    while i < dim
        invariant
            i <= dim,
            base == c * dim,
            base + dim <= usize::MAX,
            arith::is_source(*uniform),
            u == arith::noise(*uniform),
            v@.len() == i,
            forall|k: int| 0 <= k < i ==> #[trigger] v@[k] == u(seed, (base + k) as u64),
        decreases dim - i,
    {
        v.push(arith::draw(uniform, seed, (base + i) as u64));
        i += 1;
    }
    assert(v@ =~= Seq::new(dim as nat, |i: int| u(seed, (c * dim + i) as u64)));
    vectors::normalize(fpu, v, VANISHING)
}

/// Reduces vectors to their coordinates along the `n_components` directions
/// in which they vary most. Draws of `uniform` lie between minus one and one.
pub fn pca_reduce<F: Fn(Op, u32, u32, u32) -> u32, U: Fn(u64, u64) -> u32>(
    fpu: &F,
    uniform: &U,
    data: &Vec<Vec<u32>>,
    n_components: usize,
    seed: u64,
) -> (r: Vec<Vec<u32>>)
    requires
        arith::is_unit(*fpu),
        arith::is_source(*uniform),
        clustering::usable(rows(data@)),
        n_components * data@[0]@.len() <= usize::MAX,
    ensures
        rows(r@) == reduced(
            arith::arith(*fpu),
            arith::noise(*uniform),
            rows(data@),
            n_components as int,
            seed,
        ),
{
    let ghost ar = arith::arith(*fpu);
    let ghost u = arith::noise(*uniform);
    let ghost all = rows(data@);
    let dim: usize = data[0].len();
    assert(all[0] == data@[0]@);
    let shifted: Vec<Vec<u32>> = center(fpu, data);
    let ghost c = rows(shifted@);
    assert(clustering::even(c, dim as int));
    let mut matrix: Vec<Vec<u32>> = covariances(fpu, &shifted, dim);
    let ghost start = rows(matrix@);
    let mut directions: Vec<Vec<u32>> = Vec::new();
    let mut k: usize = 0;
    assert(rows(directions@) =~= Seq::<Seq<u32>>::empty());
    while k < n_components
        invariant
            k <= n_components,
            n_components * dim <= usize::MAX,
            arith::is_unit(*fpu),
            arith::is_source(*uniform),
            ar == arith::arith(*fpu),
            u == arith::noise(*uniform),
            start.len() == dim,
            square(rows(matrix@), dim as int),
            rows(matrix@) == extracted(ar, u, seed, start, k as int).0,
            rows(directions@) == extracted(ar, u, seed, start, k as int).1,
            directions@.len() == k,
            forall|i: int| 0 <= i < k ==> (#[trigger] directions@[i])@.len() == dim,
        decreases n_components - k,
    {
        proof {
            assert((k + 1) * dim <= n_components * dim) by (nonlinear_arith)
                requires
                    k + 1 <= n_components,
            ;
        }
        let first: Vec<u32> = start_at(fpu, uniform, seed, dim, k);
        let v: Vec<u32> = power_iterate(fpu, &matrix, first, dim);
        let ghost before = rows(matrix@);
        let ghost found = rows(directions@);
        matrix = deflate(fpu, &matrix, &v);
        directions.push(v);
        proof {
            assert(rows(directions@) =~= found.push(v@));
            assert forall|i: int| 0 <= i < rows(matrix@).len() implies (
            #[trigger] rows(matrix@)[i]).len() == dim by {
                assert(before[i].len() == dim);
            }
        }
        k += 1;
    }
    let ghost target = reduced(ar, u, all, n_components as int, seed);
    assert(c.len() == all.len());
    let mut r: Vec<Vec<u32>> = Vec::new();
    let mut i: usize = 0;
    while i < shifted.len()
        invariant
            i <= shifted@.len(),
            arith::is_unit(*fpu),
            ar == arith::arith(*fpu),
            c == rows(shifted@),
            c == centered(ar, all),
            c.len() == all.len(),
            clustering::even(c, dim as int),
            directions@.len() == n_components,
            forall|k: int| 0 <= k < n_components ==> (#[trigger] directions@[k])@.len() == dim,
            rows(directions@) == extracted(ar, u, seed, covariance(ar, c, dim as int), n_components as int).1,
            dim == all[0].len(),
            target == reduced(ar, u, all, n_components as int, seed),
            r@.len() == i,
            forall|k: int| 0 <= k < i ==> (#[trigger] r@[k])@ == target[k],
        decreases shifted@.len() - i,
    {
        assert(c[i as int] == shifted@[i as int]@);
        let mut row: Vec<u32> = Vec::new();
        let mut k: usize = 0;
        while k < n_components
            invariant
                i < shifted@.len(),
                k <= n_components,
                arith::is_unit(*fpu),
                ar == arith::arith(*fpu),
                c[i as int] == shifted@[i as int]@,
                c[i as int].len() == dim,
                directions@.len() == n_components,
                forall|k: int| 0 <= k < n_components ==> (#[trigger] directions@[k])@.len() == dim,
                row@.len() == k,
                forall|j: int|
                    0 <= j < k ==> #[trigger] row@[j] == simd::dot_product(
                        ar,
                        c[i as int],
                        rows(directions@)[j],
                    ),
            decreases n_components - k,
        {
            assert(rows(directions@)[k as int] == directions@[k as int]@);
            row.push(simd::simd_dot_f32(fpu, &shifted[i], &directions[k]));
            k += 1;
        }
        proof {
            assert forall|j: int| 0 <= j < n_components implies #[trigger] row@[j]
                == target[i as int][j] by {
                assert(row@[j] == simd::dot_product(ar, c[i as int], rows(directions@)[j]));
            }
            assert(row@ =~= target[i as int]);
        }
        r.push(row);
        i += 1;
    }
    assert(rows(r@) =~= target);
    r
}

} // verus!
