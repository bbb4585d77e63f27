//! Sums that are spread over lanes, compared with sums taken in order, where
//! the order does not matter.

use vstd::prelude::*;

use super::angle_cosine;
use super::factors;
use super::inner;
use super::lemma_total_none;
use super::lemma_total_push;
use super::lemma_total_take;
use super::total;
use crate::arith::Arith;
use crate::arith::Op;
use crate::embedded::storage;
use crate::embedded::DIM;
use crate::projector::Projector;
use crate::simd;

verus! {

/// It does not matter in which order numbers are added, zero adds nothing, and
/// a fused operation is a product and a sum.
#[verifier::opaque]
pub open spec fn sums_freely(ar: Arith) -> bool {
    &&& forall|x: u32, y: u32| #[trigger] ar(Op::Add, x, y, 0) == ar(Op::Add, y, x, 0)
    &&& forall|x: u32, y: u32, z: u32| #[trigger]
        ar(Op::Add, ar(Op::Add, x, y, 0), z, 0) == ar(Op::Add, x, ar(Op::Add, y, z, 0), 0)
    &&& forall|x: u32| #[trigger] ar(Op::Add, 0, x, 0) == x
    &&& forall|x: u32, y: u32, z: u32| #[trigger]
        ar(Op::Fma, x, y, z) == ar(Op::Add, ar(Op::Mul, x, y, 0), z, 0)
}

proof fn lemma_swap(ar: Arith, a: u32, b: u32)
    requires
        sums_freely(ar),
    ensures
        ar(Op::Add, a, b, 0) == ar(Op::Add, b, a, 0),
{
    reveal(sums_freely);
}

proof fn lemma_regroup(ar: Arith, a: u32, b: u32, c: u32)
    requires
        sums_freely(ar),
    ensures
        ar(Op::Add, ar(Op::Add, a, b, 0), c, 0) == ar(Op::Add, a, ar(Op::Add, b, c, 0), 0),
{
    reveal(sums_freely);
}

proof fn lemma_nothing(ar: Arith, a: u32)
    requires
        sums_freely(ar),
    ensures
        ar(Op::Add, 0, a, 0) == a,
        ar(Op::Add, a, 0, 0) == a,
{
    reveal(sums_freely);
    lemma_swap(ar, a, 0);
}

proof fn lemma_fused(ar: Arith, a: u32, b: u32, c: u32)
    requires
        sums_freely(ar),
    ensures
        ar(Op::Fma, a, b, c) == ar(Op::Add, c, ar(Op::Mul, a, b, 0), 0),
{
    reveal(sums_freely);
    lemma_swap(ar, c, ar(Op::Mul, a, b, 0));
}

proof fn lemma_interchange(ar: Arith, a: u32, b: u32, c: u32, d: u32)
    requires
        sums_freely(ar),
    ensures
        ar(Op::Add, ar(Op::Add, a, b, 0), ar(Op::Add, c, d, 0), 0) == ar(
            Op::Add,
            ar(Op::Add, a, c, 0),
            ar(Op::Add, b, d, 0),
            0,
        ),
{
    let cd = ar(Op::Add, c, d, 0);
    let bd = ar(Op::Add, b, d, 0);
    lemma_regroup(ar, a, b, cd);
    lemma_regroup(ar, b, c, d);
    lemma_swap(ar, b, c);
    lemma_regroup(ar, c, b, d);
    lemma_regroup(ar, a, c, bd);
}

/// Every `width`-th term from `l` on, of the first `rounds` groups.
spec fn lane(ar: Arith, f: Seq<u32>, width: int, l: int, rounds: int) -> u32
    decreases rounds,
{
    if rounds <= 0 {
        0
    } else {
        ar(Op::Add, lane(ar, f, width, l, rounds - 1), f[(rounds - 1) * width + l], 0)
    }
}

/// The first `n` lanes, added up.
spec fn lanes(ar: Arith, f: Seq<u32>, width: int, n: int, rounds: int) -> u32
    decreases n,
{
    if n <= 0 {
        0
    } else {
        ar(
            Op::Add,
            lanes(ar, f, width, n - 1, rounds),
            lane(ar, f, width, n - 1, rounds),
            0,
        )
    }
}

/// The first `n` terms from `at` on, added up.
spec fn run(ar: Arith, f: Seq<u32>, at: int, n: int) -> u32
    decreases n,
{
    if n <= 0 {
        0
    } else {
        ar(Op::Add, run(ar, f, at, n - 1), f[at + n - 1], 0)
    }
}

proof fn lemma_no_rounds(ar: Arith, f: Seq<u32>, width: int, n: int)
    requires
        sums_freely(ar),
    ensures
        lanes(ar, f, width, n, 0) == 0,
    decreases n,
{
    if n > 0 {
        lemma_no_rounds(ar, f, width, n - 1);
        lemma_nothing(ar, 0);
    }
}

proof fn lemma_one_more_round(ar: Arith, f: Seq<u32>, width: int, n: int, rounds: int)
    requires
        sums_freely(ar),
        0 <= rounds,
    ensures
        lanes(ar, f, width, n, rounds + 1) == ar(
            Op::Add,
            lanes(ar, f, width, n, rounds),
            run(ar, f, rounds * width, n),
            0,
        ),
    decreases n,
{
    if n > 0 {
        lemma_one_more_round(ar, f, width, n - 1, rounds);
        lemma_interchange(
            ar,
            lanes(ar, f, width, n - 1, rounds),
            run(ar, f, rounds * width, n - 1),
            lane(ar, f, width, n - 1, rounds),
            f[rounds * width + n - 1],
        );
    } else {
        lemma_nothing(ar, 0);
    }
}

proof fn lemma_run(ar: Arith, f: Seq<u32>, at: int, n: int)
    requires
        sums_freely(ar),
        0 <= at,
        0 <= n,
        at + n <= f.len(),
    ensures
        total(ar, f.take(at + n)) == ar(Op::Add, total(ar, f.take(at)), run(ar, f, at, n), 0),
    decreases n,
{
    let t = total(ar, f.take(at));
    if n > 0 {
        lemma_run(ar, f, at, n - 1);
        lemma_total_take(ar, f, at + n);
        lemma_regroup(ar, t, run(ar, f, at, n - 1), f[at + n - 1]);
    } else {
        lemma_nothing(ar, t);
    }
}

proof fn lemma_lanes(ar: Arith, f: Seq<u32>, width: int, rounds: int)
    requires
        sums_freely(ar),
        0 < width,
        0 <= rounds,
        rounds * width <= f.len(),
    ensures
        lanes(ar, f, width, width, rounds) == total(ar, f.take(rounds * width)),
    decreases rounds,
{
    if rounds > 0 {
        assert((rounds - 1) * width + width == rounds * width) by (nonlinear_arith);
        assert(0 <= (rounds - 1) * width) by (nonlinear_arith)
            requires
                rounds > 0,
                width > 0,
        ;
        lemma_lanes(ar, f, width, rounds - 1);
        lemma_one_more_round(ar, f, width, width, rounds - 1);
        lemma_run(ar, f, (rounds - 1) * width, width);
    } else {
        lemma_no_rounds(ar, f, width, width);
        lemma_total_none(ar, f);
        assert(rounds * width == 0) by (nonlinear_arith)
            requires
                rounds == 0,
        ;
    }
}

proof fn lemma_dot_lane(ar: Arith, a: Seq<u32>, b: Seq<u32>, k: int, chunks: int)
    requires
        sums_freely(ar),
        a.len() == b.len(),
        0 <= k < 4,
        4 * chunks <= a.len(),
    ensures
        simd::dot_lane(ar, a, b, k, chunks) == lane(ar, factors(ar, a, b), 4, k, chunks),
    decreases chunks,
{
    if chunks > 0 {
        lemma_dot_lane(ar, a, b, k, chunks - 1);
        let i = 4 * (chunks - 1) + k;
        assert((chunks - 1) * 4 + k == i);
        assert(factors(ar, a, b)[i] == ar(Op::Mul, a[i], b[i], 0));
        lemma_fused(ar, a[i], b[i], simd::dot_lane(ar, a, b, k, chunks - 1));
    }
}

proof fn lemma_four(ar: Arith, f: Seq<u32>, r: int)
    ensures
        lanes(ar, f, 4, 4, r) == simd::four(
            ar,
            lane(ar, f, 4, 0, r),
            lane(ar, f, 4, 1, r),
            lane(ar, f, 4, 2, r),
            lane(ar, f, 4, 3, r),
        ),
{
    assert(lanes(ar, f, 4, 0, r) == 0);
    assert(lanes(ar, f, 4, 1, r) == ar(Op::Add, lanes(ar, f, 4, 0, r), lane(ar, f, 4, 0, r), 0));
    assert(lanes(ar, f, 4, 2, r) == ar(Op::Add, lanes(ar, f, 4, 1, r), lane(ar, f, 4, 1, r), 0));
    assert(lanes(ar, f, 4, 3, r) == ar(Op::Add, lanes(ar, f, 4, 2, r), lane(ar, f, 4, 2, r), 0));
    assert(lanes(ar, f, 4, 4, r) == ar(Op::Add, lanes(ar, f, 4, 3, r), lane(ar, f, 4, 3, r), 0));
}

proof fn lemma_dot_tail(ar: Arith, a: Seq<u32>, b: Seq<u32>, chunks: int, n: int)
    requires
        sums_freely(ar),
        a.len() == b.len(),
        0 <= chunks,
        4 * chunks <= n <= a.len(),
    ensures
        simd::dot_tail(ar, a, b, chunks, n) == total(ar, factors(ar, a, b).take(n)),
    decreases n - 4 * chunks,
{
    let f = factors(ar, a, b);
    if n <= 4 * chunks {
        lemma_dot_lane(ar, a, b, 0, chunks);
        lemma_dot_lane(ar, a, b, 1, chunks);
        lemma_dot_lane(ar, a, b, 2, chunks);
        lemma_dot_lane(ar, a, b, 3, chunks);
        lemma_four(ar, f, chunks);
        lemma_lanes(ar, f, 4, chunks);
    } else {
        lemma_dot_tail(ar, a, b, chunks, n - 1);
        lemma_total_take(ar, f, n);
        lemma_fused(ar, a[n - 1], b[n - 1], simd::dot_tail(ar, a, b, chunks, n - 1));
        assert(f[n - 1] == ar(Op::Mul, a[n - 1], b[n - 1], 0));
    }
}

/// A fast dot product is the sum of the products of all coordinates.
pub proof fn fast_products_add_up(ar: Arith, a: Seq<u32>, b: Seq<u32>)
    requires
        sums_freely(ar),
        a.len() == b.len(),
    ensures
        simd::dot_product(ar, a, b) == inner(ar, a, b),
{
    let n = a.len() as int;
    lemma_dot_tail(ar, a, b, n / 4, n);
    assert(factors(ar, a, b).take(n) =~= factors(ar, a, b));
}

proof fn lemma_term_lane(ar: Arith, f: Seq<u32>, k: int, chunks: int)
    ensures
        simd::term_lane(ar, f, k, chunks) == lane(ar, f, 4, k, chunks),
    decreases chunks,
{
    if chunks > 0 {
        lemma_term_lane(ar, f, k, chunks - 1);
        assert((chunks - 1) * 4 + k == 4 * (chunks - 1) + k);
    }
}

proof fn lemma_term_tail(ar: Arith, f: Seq<u32>, chunks: int, n: int)
    requires
        sums_freely(ar),
        0 <= chunks,
        4 * chunks <= n <= f.len(),
    ensures
        simd::term_tail(ar, f, chunks, n) == total(ar, f.take(n)),
    decreases n - 4 * chunks,
{
    if n <= 4 * chunks {
        lemma_term_lane(ar, f, 0, chunks);
        lemma_term_lane(ar, f, 1, chunks);
        lemma_term_lane(ar, f, 2, chunks);
        lemma_term_lane(ar, f, 3, chunks);
        lemma_four(ar, f, chunks);
        lemma_lanes(ar, f, 4, chunks);
    } else {
        lemma_term_tail(ar, f, chunks, n - 1);
        lemma_total_take(ar, f, n);
    }
}

/// The fast sum of looked-up entries is the sum of all that the codes select:
/// for each position the entry as far behind the start of its row as its code
/// says.
pub proof fn fast_sums_add_up(ar: Arith, table: Seq<u32>, row_base: Seq<u32>, codes: Seq<u8>)
    requires
        sums_freely(ar),
    ensures
        simd::term_sum(ar, simd::entries(table, row_base, codes)) == total(
            ar,
            Seq::new(codes.len(), |i: int| table[row_base[i] + codes[i]]),
        ),
{
    let f = simd::entries(table, row_base, codes);
    let n = f.len() as int;
    lemma_term_tail(ar, f, n / 4, n);
    assert(f.take(n) =~= f);
    assert(f =~= Seq::new(codes.len(), |i: int| table[row_base[i] + codes[i]]));
}

/// A fast sum is the sum of all its terms.
pub proof fn fast_terms_add_up(ar: Arith, f: Seq<u32>)
    requires
        sums_freely(ar),
    ensures
        simd::term_sum(ar, f) == total(ar, f),
{
    let n = f.len() as int;
    lemma_term_tail(ar, f, n / 4, n);
    assert(f.take(n) =~= f);
}

/// Every coordinate of a projection is the dot product of the vector with a
/// row of the matrix.
pub proof fn projections_are_products_with_rows(
    ar: Arith,
    p: Projector,
    v: Seq<u32>,
    o: int,
)
    requires
        sums_freely(ar),
        p.wf(),
        v.len() == p.in_dim,
        0 <= o < p.out_dim,
    ensures
        p.projected(ar, v).len() == p.out_dim,
        p.projected(ar, v)[o] == total(
            ar,
            Seq::new(v.len(), |j: int| ar(Op::Mul, p.matrix@[o * p.in_dim + j], v[j], 0)),
        ),
{
    let n = p.in_dim as int;
    let m = p.out_dim as int;
    assert(0 <= o * n && (o + 1) * n <= n * m && (o + 1) * n == o * n + n) by (nonlinear_arith)
        requires
            0 <= o < m,
            0 <= n,
    ;
    let row = p.row(o);
    assert(row.len() == n);
    fast_products_add_up(ar, row, v);
    assert(factors(ar, row, v) =~= Seq::new(
        v.len(),
        |j: int| ar(Op::Mul, p.matrix@[o * p.in_dim + j], v[j], 0),
    ));
}

proof fn lemma_wide_lane(ar: Arith, a: Seq<u32>, b: Seq<u32>, l: int, n: int)
    requires
        a.len() == b.len(),
        0 <= l < 8,
        8 * n <= a.len(),
    ensures
        storage::lane_sum(ar, a, b, l, n) == lane(ar, factors(ar, a, b), 8, l, n),
    decreases n,
{
    if n > 0 {
        lemma_wide_lane(ar, a, b, l, n - 1);
        let i = (n - 1) * 8 + l;
        assert(factors(ar, a, b)[i] == ar(Op::Mul, a[i], b[i], 0));
    }
}

proof fn lemma_wide_lanes(ar: Arith, a: Seq<u32>, b: Seq<u32>, n: int)
    requires
        a.len() == 768,
        b.len() == 768,
        0 <= n <= 8,
    ensures
        storage::lanes_total(ar, a, b, n) == lanes(ar, factors(ar, a, b), 8, n, 96),
    decreases n,
{
    if n > 0 {
        lemma_wide_lanes(ar, a, b, n - 1);
        lemma_wide_lane(ar, a, b, n - 1, 96);
        assert(DIM / storage::LANES == 96);
    }
}

/// The product and the similarity of vectors of fixed size are those of
/// vectors of any size: the sum of the products of all coordinates, and the
/// cosine of the angle.
pub proof fn fixed_size_changes_nothing(ar: Arith, a: Seq<u32>, b: Seq<u32>)
    requires
        sums_freely(ar),
        a.len() == 768,
        b.len() == 768,
    ensures
        storage::product(ar, a, b) == inner(ar, a, b),
        storage::similarity(ar, a, b) == angle_cosine(ar, a, b),
{
    lemma_fixed_product(ar, a, b);
    lemma_fixed_product(ar, a, a);
    lemma_fixed_product(ar, b, b);
}

proof fn lemma_fixed_product(ar: Arith, a: Seq<u32>, b: Seq<u32>)
    requires
        sums_freely(ar),
        a.len() == 768,
        b.len() == 768,
    ensures
        storage::product(ar, a, b) == inner(ar, a, b),
{
    let f = factors(ar, a, b);
    lemma_wide_lanes(ar, a, b, 8);
    lemma_lanes(ar, f, 8, 96);
    assert(f.take(768) =~= f);
}

/// The sum of two lists put together is the sum of their sums.
pub proof fn sums_of_parts_add_up(ar: Arith, s: Seq<u32>, t: Seq<u32>)
    requires
        sums_freely(ar),
    ensures
        total(ar, s + t) == ar(Op::Add, total(ar, s), total(ar, t), 0),
    decreases t.len(),
{
    if t.len() > 0 {
        let u = t.drop_last();
        sums_of_parts_add_up(ar, s, u);
        assert(s + t =~= (s + u).push(t.last()));
        assert(t =~= u.push(t.last()));
        lemma_total_push(ar, s + u, t.last());
        lemma_total_push(ar, u, t.last());
        lemma_regroup(ar, total(ar, s), total(ar, u), t.last());
    } else {
        assert(s + t =~= s);
        lemma_nothing(ar, total(ar, s));
    }
}

} // verus!
