//! Product quantization.
//!
//! A vector is cut into pieces, and each piece is replaced by the number of
//! the nearest entry of a codebook trained for its place.

use vstd::prelude::*;

use crate::arith;
use crate::arith::Arith;
use crate::arith::Op;
use crate::clustering;
use crate::order;
use crate::simd;
use crate::superpose;
use crate::vectors;
use crate::vectors::rows;

verus! {

/// The contents of a list of tables.
pub open spec fn tables(v: Seq<Vec<Vec<u32>>>) -> Seq<Seq<Seq<u32>>> {
    Seq::new(v.len(), |i: int| rows(v[i]@))
}

/// Piece `s` of `v`, where pieces have `size` coordinates.
pub open spec fn piece(v: Seq<u32>, size: int, s: int) -> Seq<u32> {
    v.subrange(s * size, (s + 1) * size)
}

/// Piece `s` of every vector.
pub open spec fn pieces(vectors: Seq<Seq<u32>>, size: int, s: int) -> Seq<Seq<u32>> {
    Seq::new(vectors.len(), |i: int| piece(vectors[i], size, s))
}

/// The seed with which the codebook for place `s` is trained.
pub open spec fn seed_for(seed: u64, s: int) -> u64 {
    ((seed + s) % 0x1_0000_0000_0000_0000) as u64
}

/// A codec: how vectors are cut, and a codebook for each place.
pub struct PqCodec {
    pub dim: usize,
    pub n_subspaces: usize,
    pub sub_dim: usize,
    pub n_centroids: usize,
    pub codebooks: Vec<Vec<Vec<u32>>>,
}

/// The number of entries of the codebooks before place `s`.
pub open spec fn offset(books: Seq<Seq<Seq<u32>>>, s: int) -> int
    decreases s,
{
    if s <= 0 {
        0
    } else {
        offset(books, s - 1) + books[s - 1].len()
    }
}

/// The entries that the first `n` codes select, one after the other.
pub open spec fn joined(books: Seq<Seq<Seq<u32>>>, codes: Seq<u8>, n: int) -> Seq<u32>
    decreases n,
{
    if n <= 0 {
        Seq::empty()
    } else {
        joined(books, codes, n - 1) + books[n - 1][codes[n - 1] as int]
    }
}

/// The code of the nearest entry of `book`.
pub open spec fn code_for(ar: Arith, v: Seq<u32>, book: Seq<Seq<u32>>) -> u8 {
    (vectors::least(vectors::distances_from(ar, v, book)) % 0x100) as u8
}

/// Each code selects an entry of its codebook.
pub open spec fn decodable(books: Seq<Seq<Seq<u32>>>, codes: Seq<u8>) -> bool {
    &&& codes.len() == books.len()
    &&& forall|s: int| 0 <= s < books.len() ==> #[trigger] codes[s] < books[s].len()
}

impl PqCodec {
    /// The codebooks.
    pub open spec fn books(&self) -> Seq<Seq<Seq<u32>>> {
        tables(self.codebooks@)
    }

    /// The pieces make up a vector, and every place has a codebook with at
    /// least one entry, all of the size of a piece.
    pub open spec fn wf(&self) -> bool {
        &&& self.n_subspaces > 0
        &&& self.dim == self.n_subspaces * self.sub_dim
        &&& self.books().len() == self.n_subspaces
        &&& forall|s: int| 0 <= s < self.n_subspaces ==> (#[trigger] self.books()[s]).len() > 0
        &&& forall|s: int|
            0 <= s < self.n_subspaces ==> clustering::even(
                #[trigger] self.books()[s],
                self.sub_dim as int,
            )
        &&& offset(self.books(), self.n_subspaces as int) <= u32::MAX
    }

    /// The codes of `v`.
    pub open spec fn encoded(&self, ar: Arith, v: Seq<u32>) -> Seq<u8> {
        Seq::new(
            self.n_subspaces as nat,
            |s: int| code_for(ar, piece(v, self.sub_dim as int, s), self.books()[s]),
        )
    }

    /// The vector that `codes` stand for.
    pub open spec fn decoded(&self, codes: Seq<u8>) -> Seq<u32> {
        joined(self.books(), codes, self.n_subspaces as int)
    }

    /// Trains a codec: for each place a codebook of at most `n_centroids`
    /// entries, by clustering that piece of every training vector.
    pub fn train<F: Fn(Op, u32, u32, u32) -> u32>(
        fpu: &F,
        training_vectors: &Vec<Vec<u32>>,
        n_subspaces: usize,
        n_centroids: usize,
        iterations: usize,
        seed: u64,
    ) -> (r: Self)
        requires
            arith::is_unit(*fpu),
            n_subspaces > 0,
            clustering::usable(rows(training_vectors@)),
            training_vectors@[0]@.len() % n_subspaces as nat == 0,
            n_subspaces * n_centroids <= u32::MAX,
            n_subspaces <= u32::MAX,
        ensures
            r.wf(),
            r.dim == training_vectors@[0]@.len(),
            r.n_subspaces == n_subspaces,
            r.n_centroids == n_centroids,
            forall|s: int|
                0 <= s < n_subspaces ==> #[trigger] r.books()[s] == clustering::centroids_of(
                    arith::arith(*fpu),
                    pieces(rows(training_vectors@), r.sub_dim as int, s),
                    n_centroids as int,
                    iterations as int,
                    seed_for(seed, s),
                ),
    {
        let ghost ar = arith::arith(*fpu);
        let ghost data = rows(training_vectors@);
        let n: usize = training_vectors.len();
        let dim: usize = training_vectors[0].len();
        let sub_dim: usize = dim / n_subspaces;
        proof {
            assert(data[0] == training_vectors@[0]@);
            vstd::arithmetic::div_mod::lemma_fundamental_div_mod(dim as int, n_subspaces as int);
            assert(dim == n_subspaces * sub_dim);
        }
        let mut codebooks: Vec<Vec<Vec<u32>>> = Vec::new();
        let mut s: usize = 0;
        while s < n_subspaces
            invariant
                s <= n_subspaces,
                arith::is_unit(*fpu),
                ar == arith::arith(*fpu),
                data == rows(training_vectors@),
                clustering::usable(data),
                n == data.len(),
                dim == data[0].len(),
                dim == n_subspaces * sub_dim,
                codebooks@.len() == s,
                forall|t: int|
                    0 <= t < s ==> #[trigger] tables(codebooks@)[t] == clustering::centroids_of(
                        ar,
                        pieces(data, sub_dim as int, t),
                        n_centroids as int,
                        iterations as int,
                        seed_for(seed, t),
                    ),
                forall|t: int|
                    0 <= t < s ==> (#[trigger] tables(codebooks@)[t]).len()
                        == clustering::cluster_count(n as int, n_centroids as int)
                        && clustering::even(tables(codebooks@)[t], sub_dim as int),
            decreases n_subspaces - s,
        {
            let subs: Vec<Vec<u32>> = cut(training_vectors, sub_dim, s, n_subspaces);
            let ghost so_far = tables(codebooks@);
            proof {
                assert(rows(subs@) == pieces(data, sub_dim as int, s as int));
                assert(clustering::even(rows(subs@), sub_dim as int));
                assert(rows(subs@)[0].len() == sub_dim);
            }
            let book: Vec<Vec<u32>> = clustering::kmeans(
                fpu,
                &subs,
                n_centroids,
                iterations,
                seed.wrapping_add(s as u64),
            );
            proof {
                assert(clustering::even(rows(book@), sub_dim as int));
                assert(seed_for(seed, s as int) == seed.wrapping_add(s as u64));
            }
            codebooks.push(book);
            proof {
                assert(tables(codebooks@) =~= so_far.push(rows(book@)));
            }
            s += 1;
        }
        let r: PqCodec = PqCodec { dim, n_subspaces, sub_dim, n_centroids, codebooks };
        proof {
            let k = clustering::cluster_count(n as int, n_centroids as int);
            lemma_offset_uniform(r.books(), n_subspaces as int, k);
            assert(n_subspaces * k <= u32::MAX) by {
                if n_centroids >= 1 {
                    assert(n_subspaces * k <= n_subspaces * n_centroids) by (nonlinear_arith)
                        requires
                            0 < n_subspaces,
                            k <= n_centroids,
                    ;
                } else {
                    assert(n_subspaces * k == n_subspaces) by (nonlinear_arith)
                        requires
                            k == 1,
                    ;
                }
            }
        }
        r
    }

    /// The number of coordinates.
    pub fn dim(&self) -> (r: usize)
        ensures
            r == self.dim,
    {
        self.dim
    }

    /// The number of codes of a vector.
    pub fn code_len(&self) -> (r: usize)
        ensures
            r == self.n_subspaces,
    {
        self.n_subspaces
    }

    /// The codes of `v`.
    pub fn encode<F: Fn(Op, u32, u32, u32) -> u32>(&self, fpu: &F, v: &[u32]) -> (r: Vec<u8>)
        requires
            arith::is_unit(*fpu),
            self.wf(),
            v@.len() == self.dim,
        ensures
            r@ == self.encoded(arith::arith(*fpu), v@),
            decodable(self.books(), r@),
    {
        let mut codes: Vec<u8> = vec![0; self.n_subspaces];
        self.encode_into(fpu, v, &mut codes);
        codes
    }

    /// Writes the codes of `v` to `out`.
    pub fn encode_into<F: Fn(Op, u32, u32, u32) -> u32>(
        &self,
        fpu: &F,
        v: &[u32],
        out: &mut Vec<u8>,
    )
        requires
            arith::is_unit(*fpu),
            self.wf(),
            v@.len() == self.dim,
            old(out)@.len() == self.n_subspaces,
        ensures
            final(out)@ == self.encoded(arith::arith(*fpu), v@),
            decodable(self.books(), final(out)@),
    {
        let ghost target = self.encoded(arith::arith(*fpu), v@);
        let ghost books = self.books();
        let mut s: usize = 0;
        while s < self.n_subspaces
            invariant
                s <= self.n_subspaces,
                arith::is_unit(*fpu),
                self.wf(),
                v@.len() == self.dim,
                books == self.books(),
                target == self.encoded(arith::arith(*fpu), v@),
                out@.len() == self.n_subspaces,
                forall|t: int| 0 <= t < s ==> #[trigger] out@[t] == target[t],
                forall|t: int| 0 <= t < s ==> #[trigger] out@[t] < books[t].len(),
            decreases self.n_subspaces - s,
        {
            proof {
                lemma_piece_fits(
                    self.dim as int,
                    self.n_subspaces as int,
                    self.sub_dim as int,
                    s as int,
                );
                assert(books[s as int] == rows(self.codebooks@[s as int]@));
            }
            let sub: &[u32] = vstd::slice::slice_subrange(
                v,
                s * self.sub_dim,
                (s + 1) * self.sub_dim,
            );
            let d: Vec<u32> = vectors::measure_from(fpu, sub, &self.codebooks[s]);
            let best: usize = vectors::find_least(&d);
            proof {
                assert(sub@ == piece(v@, self.sub_dim as int, s as int));
                assert(target[s as int] == (best % 0x100) as u8);
            }
            out.set(s, (best % 0x100) as u8);
            s += 1;
        }
        assert(out@ =~= target);
    }

    /// The vector that `codes` stand for.
    pub fn decode(&self, codes: &[u8]) -> (r: Vec<u32>)
        requires
            self.wf(),
            decodable(self.books(), codes@),
        ensures
            r@ == self.decoded(codes@),
            r@.len() == self.dim,
    {
        let ghost books = self.books();
        let mut r: Vec<u32> = Vec::new();
        let mut s: usize = 0;
        proof {
            assert(0 * self.sub_dim == 0);
        }
        while s < self.n_subspaces
            invariant
                s <= self.n_subspaces,
                self.wf(),
                books == self.books(),
                decodable(books, codes@),
                r@ == joined(books, codes@, s as int),
                r@.len() == s * self.sub_dim,
            decreases self.n_subspaces - s,
        {
            proof {
                assert(books[s as int] == rows(self.codebooks@[s as int]@));
                assert(books[s as int][codes@[s as int] as int]
                    == self.codebooks@[s as int]@[codes@[s as int] as int]@);
                assert(books[s as int][codes@[s as int] as int].len() == self.sub_dim);
                assert((s + 1) * self.sub_dim == s * self.sub_dim + self.sub_dim) by (
                nonlinear_arith);
            }
            let entry: &Vec<u32> = &self.codebooks[s][codes[s] as usize];
            let ghost before = r@;
            r.extend_from_slice(entry.as_slice());
            assert(r@ =~= before + entry@);
            s += 1;
        }
        r
    }

    /// The bytes of storage of a vector as codes.
    pub fn compressed_bytes(&self) -> (r: usize)
        ensures
            r == self.n_subspaces,
    {
        self.n_subspaces
    }

    /// The bytes of storage of a vector as it is.
    pub fn raw_bytes(&self) -> (r: usize)
        requires
            self.dim * 4 <= usize::MAX,
        ensures
            r == self.dim * 4,
    {
        self.dim * 4
    }

    /// Precomputes, for one query, its dot product with every entry of every
    /// codebook.
    pub fn build_query_lut<F: Fn(Op, u32, u32, u32) -> u32>(&self, fpu: &F, query: &[u32]) -> (r:
        QueryLut)
        requires
            arith::is_unit(*fpu),
            self.wf(),
            query@.len() == self.dim,
        ensures
            r.is_for(arith::arith(*fpu), *self, query@),
    {
        let ghost ar = arith::arith(*fpu);
        let ghost books = self.books();
        let mut dot: Vec<u32> = Vec::new();
        let mut norm_sq: Vec<u32> = Vec::new();
        let mut row_base: Vec<u32> = Vec::new();
        let mut s: usize = 0;
        while s < self.n_subspaces
            invariant
                s <= self.n_subspaces,
                arith::is_unit(*fpu),
                ar == arith::arith(*fpu),
                self.wf(),
                query@.len() == self.dim,
                books == self.books(),
                dot@.len() == offset(books, s as int),
                norm_sq@.len() == offset(books, s as int),
                row_base@.len() == s,
                tabulated(ar, *self, query@, s as int, dot@, norm_sq@, row_base@),
            decreases self.n_subspaces - s,
        {
            proof {
                lemma_piece_fits(
                    self.dim as int,
                    self.n_subspaces as int,
                    self.sub_dim as int,
                    s as int,
                );
                lemma_offset_monotone(books, s + 1, self.n_subspaces as int);
                assert(books[s as int] == rows(self.codebooks@[s as int]@));
            }
            let sub: &[u32] = vstd::slice::slice_subrange(
                query,
                s * self.sub_dim,
                (s + 1) * self.sub_dim,
            );
            let ghost dot_before = dot@;
            let ghost norm_before = norm_sq@;
            let ghost base_before = row_base@;
            row_base.push(dot.len() as u32);
            let book: &Vec<Vec<u32>> = &self.codebooks[s];
            let mut c: usize = 0;
            while c < book.len()
                invariant
                    c <= book@.len(),
                    s < self.n_subspaces,
                    arith::is_unit(*fpu),
                    ar == arith::arith(*fpu),
                    self.wf(),
                    books == self.books(),
                    books[s as int] == rows(book@),
                    sub@ == piece(query@, self.sub_dim as int, s as int),
                    sub@.len() == self.sub_dim,
                    dot_before.len() == offset(books, s as int),
                    norm_before.len() == offset(books, s as int),
                    dot@.len() == dot_before.len() + c,
                    norm_sq@.len() == norm_before.len() + c,
                    forall|i: int| 0 <= i < dot_before.len() ==> #[trigger] dot@[i] == dot_before[i],
                    forall|i: int|
                        0 <= i < norm_before.len() ==> #[trigger] norm_sq@[i] == norm_before[i],
                    forall|i: int|
                        0 <= i < c ==> #[trigger] dot@[dot_before.len() + i] == simd::dot_product(
                            ar,
                            sub@,
                            books[s as int][i],
                        ),
                    forall|i: int|
                        0 <= i < c ==> #[trigger] norm_sq@[norm_before.len() + i]
                            == simd::dot_product(ar, books[s as int][i], books[s as int][i]),
                decreases book@.len() - c,
            {
                assert(books[s as int][c as int] == book@[c as int]@);
                assert(books[s as int][c as int].len() == self.sub_dim);
                dot.push(simd::simd_dot_f32(fpu, sub, &book[c]));
                norm_sq.push(simd::simd_dot_f32(fpu, &book[c], &book[c]));
                c += 1;
            }
            proof {
                assert forall|t: int, e: int|
                    0 <= t < s + 1 && 0 <= e < books[t].len() implies #[trigger] lut_entry(
                    ar,
                    *self,
                    query@,
                    dot@,
                    norm_sq@,
                    row_base@,
                    t,
                    e,
                ) by {
                    if t < s {
                        assert(lut_entry(
                            ar,
                            *self,
                            query@,
                            dot_before,
                            norm_before,
                            base_before,
                            t,
                            e,
                        ));
                        lemma_offset_monotone(books, t + 1, s as int);
                        assert(row_base@[t] == base_before[t]);
                    } else {
                        assert(dot@[dot_before.len() + e] == simd::dot_product(
                            ar,
                            sub@,
                            books[t][e],
                        ));
                        assert(norm_sq@[norm_before.len() + e] == simd::dot_product(
                            ar,
                            books[t][e],
                            books[t][e],
                        ));
                    }
                }
                assert forall|t: int| 0 <= t < s + 1 implies #[trigger] row_base@[t] == offset(
                    books,
                    t,
                ) by {
                    if t < s {
                        assert(row_base@[t] == base_before[t]);
                    }
                }
            }
            s += 1;
        }
        let query_norm: u32 = arith::unary(fpu, Op::Sqrt, simd::simd_dot_f32(fpu, query, query));
        QueryLut { n_subspaces: self.n_subspaces, dot, norm_sq, row_base, query_norm }
    }
}

proof fn lemma_offset_uniform(books: Seq<Seq<Seq<u32>>>, n: int, k: int)
    requires
        0 <= n <= books.len(),
        forall|t: int| 0 <= t < n ==> (#[trigger] books[t]).len() == k,
    ensures
        offset(books, n) == n * k,
    decreases n,
{
    if n > 0 {
        lemma_offset_uniform(books, n - 1, k);
        assert((n - 1) * k + k == n * k) by (nonlinear_arith);
    } else {
        assert(0 * k == 0);
    }
}

pub(crate) proof fn lemma_offset_monotone(books: Seq<Seq<Seq<u32>>>, a: int, b: int)
    requires
        a <= b,
    ensures
        offset(books, a) <= offset(books, b),
    decreases b - a,
{
    if a < b {
        lemma_offset_monotone(books, a, b - 1);
    }
}

proof fn lemma_piece_fits(dim: int, n: int, size: int, s: int)
    requires
        dim == n * size,
        0 <= s < n,
        0 <= size,
    ensures
        0 <= s * size <= (s + 1) * size <= dim,
        (s + 1) * size == s * size + size,
{
    assert((s + 1) * size <= n * size) by (nonlinear_arith)
        requires
            s + 1 <= n,
            0 <= size,
    ;
    assert((s + 1) * size == s * size + size) by (nonlinear_arith);
    assert(0 <= s * size) by (nonlinear_arith)
        requires
            0 <= s,
            0 <= size,
    ;
}

/// Piece `s` of every vector.
fn cut(vectors: &Vec<Vec<u32>>, size: usize, s: usize, n: usize) -> (r: Vec<Vec<u32>>)
    requires
        clustering::usable(rows(vectors@)),
        s < n,
        rows(vectors@)[0].len() == n * size,
    ensures
        rows(r@) == pieces(rows(vectors@), size as int, s as int),
        clustering::even(rows(r@), size as int),
{
    let ghost data = rows(vectors@);
    let ghost target = pieces(data, size as int, s as int);
    let mut r: Vec<Vec<u32>> = Vec::new();
    let mut i: usize = 0;
    proof {
        lemma_piece_fits(n * size, n as int, size as int, s as int);
        assert(data[0] == vectors@[0]@);
    }
    let first: usize = vectors[0].len();
    while i < vectors.len()
        invariant
            i <= vectors@.len(),
            data == rows(vectors@),
            clustering::usable(data),
            first == data[0].len(),
            first == n * size,
            0 <= s * size <= (s + 1) * size <= n * size,
            (s + 1) * size == s * size + size,
            s < n,
            target == pieces(data, size as int, s as int),
            r@.len() == i,
            forall|j: int|
                0 <= j < i ==> (#[trigger] r@[j])@ == target[j] && r@[j]@.len() == size,
        decreases vectors@.len() - i,
    {
        assert(data[i as int] == vectors@[i as int]@);
        let sub: &[u32] = vstd::slice::slice_subrange(
            vectors[i].as_slice(),
            s * size,
            (s + 1) * size,
        );
        let row: Vec<u32> = vectors::from_slice(sub);
        r.push(row);
        i += 1;
    }
    assert(rows(r@) =~= target);
    r
}

/// Entry `c` of the codebook for place `s` stands at its place in the tables.
pub open spec fn lut_entry(
    ar: Arith,
    codec: PqCodec,
    query: Seq<u32>,
    dot: Seq<u32>,
    norm_sq: Seq<u32>,
    row_base: Seq<u32>,
    s: int,
    c: int,
) -> bool {
    let entry = codec.books()[s][c];
    &&& dot[row_base[s] + c] == simd::dot_product(
        ar,
        piece(query, codec.sub_dim as int, s),
        entry,
    )
    &&& norm_sq[row_base[s] + c] == simd::dot_product(ar, entry, entry)
}

/// The tables hold the entries of the codebooks for the first `n` places.
pub open spec fn tabulated(
    ar: Arith,
    codec: PqCodec,
    query: Seq<u32>,
    n: int,
    dot: Seq<u32>,
    norm_sq: Seq<u32>,
    row_base: Seq<u32>,
) -> bool {
    &&& forall|s: int| 0 <= s < n ==> #[trigger] row_base[s] == offset(codec.books(), s)
    &&& forall|s: int, c: int|
        0 <= s < n && 0 <= c < codec.books()[s].len() ==> #[trigger] lut_entry(
            ar,
            codec,
            query,
            dot,
            norm_sq,
            row_base,
            s,
            c,
        )
}

/// Tables for scoring codes against one query: its dot product with every
/// entry of every codebook, and the squared length of that entry.
pub struct QueryLut {
    pub n_subspaces: usize,
    pub dot: Vec<u32>,
    pub norm_sq: Vec<u32>,
    pub row_base: Vec<u32>,
    pub query_norm: u32,
}

/// The cosine that a dot product, the query's length and the other vector's
/// squared length give; zero if the lengths are too small.
pub open spec fn cosine_of_parts(ar: Arith, dot: u32, query_norm: u32, norm_sq: u32) -> u32 {
    let denominator = ar(Op::Mul, query_norm, ar(Op::Sqrt, norm_sq, 0, 0), 0);
    if order::lt(denominator, superpose::TINY) {
        order::ZERO
    } else {
        ar(Op::Div, dot, denominator, 0)
    }
}

impl QueryLut {
    /// The tables are those of `codec` for `query`.
    pub open spec fn is_for(&self, ar: Arith, codec: PqCodec, query: Seq<u32>) -> bool {
        let n = codec.n_subspaces as int;
        &&& self.n_subspaces == n
        &&& self.row_base@.len() == n
        &&& self.dot@.len() == offset(codec.books(), n)
        &&& self.norm_sq@.len() == offset(codec.books(), n)
        &&& tabulated(ar, codec, query, n, self.dot@, self.norm_sq@, self.row_base@)
        &&& self.query_norm == ar(Op::Sqrt, simd::dot_product(ar, query, query), 0, 0)
    }

    /// The cosine score of `codes`.
    pub open spec fn score(&self, ar: Arith, codes: Seq<u8>) -> u32 {
        cosine_of_parts(
            ar,
            simd::term_sum(ar, simd::entries(self.dot@, self.row_base@, codes)),
            self.query_norm,
            simd::term_sum(ar, simd::entries(self.norm_sq@, self.row_base@, codes)),
        )
    }

    fn score_parts<F: Fn(Op, u32, u32, u32) -> u32>(&self, fpu: &F, codes: &[u8]) -> (r: (u32, u32))
        requires
            arith::is_unit(*fpu),
            simd::selects(self.dot@, self.row_base@, codes@),
            simd::selects(self.norm_sq@, self.row_base@, codes@),
        ensures
            r.0 == simd::term_sum(
                arith::arith(*fpu),
                simd::entries(self.dot@, self.row_base@, codes@),
            ),
            r.1 == simd::term_sum(
                arith::arith(*fpu),
                simd::entries(self.norm_sq@, self.row_base@, codes@),
            ),
    {
        (
            simd::simd_lut_row_sum_f32(fpu, &self.dot, &self.row_base, codes),
            simd::simd_lut_row_sum_f32(fpu, &self.norm_sq, &self.row_base, codes),
        )
    }

    /// The cosine similarity of the query and the vector that `codes` stand
    /// for, read off the tables.
    pub fn cosine_score<F: Fn(Op, u32, u32, u32) -> u32>(&self, fpu: &F, codes: &[u8]) -> (r: u32)
        requires
            arith::is_unit(*fpu),
            simd::selects(self.dot@, self.row_base@, codes@),
            simd::selects(self.norm_sq@, self.row_base@, codes@),
        ensures
            r == self.score(arith::arith(*fpu), codes@),
    {
        let (dot, norm_sq) = self.score_parts(fpu, codes);
        let root: u32 = arith::unary(fpu, Op::Sqrt, norm_sq);
        let denominator: u32 = arith::binary(fpu, Op::Mul, self.query_norm, root);
        if order::less(denominator, superpose::TINY) {
            order::ZERO
        } else {
            arith::binary(fpu, Op::Div, dot, denominator)
        }
    }
}

/// The tables of a codec can score whatever it can decode.
pub proof fn tables_cover_codes(
    ar: Arith,
    codec: PqCodec,
    query: Seq<u32>,
    lut: QueryLut,
    codes: Seq<u8>,
)
    requires
        codec.wf(),
        lut.is_for(ar, codec, query),
        decodable(codec.books(), codes),
    ensures
        simd::selects(lut.dot@, lut.row_base@, codes),
        simd::selects(lut.norm_sq@, lut.row_base@, codes),
{
    let books = codec.books();
    let n = codec.n_subspaces as int;
    assert forall|i: int| 0 <= i < codes.len() implies #[trigger] lut.row_base@[i] + codes[i]
        < offset(books, n) by {
        lemma_offset_monotone(books, i + 1, n);
    }
}

/// For each code, the dot product of the query's piece and the entry that the
/// code selects.
pub open spec fn piece_dots(ar: Arith, codec: PqCodec, query: Seq<u32>, codes: Seq<u8>) -> Seq<u32> {
    Seq::new(
        codes.len(),
        |s: int|
            simd::dot_product(
                ar,
                piece(query, codec.sub_dim as int, s),
                codec.books()[s][codes[s] as int],
            ),
    )
}

/// For each code, the squared length of the entry that it selects.
pub open spec fn piece_norms(ar: Arith, codec: PqCodec, codes: Seq<u8>) -> Seq<u32> {
    Seq::new(
        codes.len(),
        |s: int|
            simd::dot_product(
                ar,
                codec.books()[s][codes[s] as int],
                codec.books()[s][codes[s] as int],
            ),
    )
}

/// The cosine similarity of a query and the vector that `codes` stand for,
/// piece by piece.
pub open spec fn codec_score(ar: Arith, codec: PqCodec, query: Seq<u32>, codes: Seq<u8>) -> u32 {
    cosine_of_parts(
        ar,
        simd::term_sum(ar, piece_dots(ar, codec, query, codes)),
        ar(Op::Sqrt, simd::dot_product(ar, query, query), 0, 0),
        simd::term_sum(ar, piece_norms(ar, codec, codes)),
    )
}

/// The cosine similarity of `query` and `v`, their dot product and the length
/// of `v` summed piece by piece.
pub open spec fn piecewise_cosine(ar: Arith, codec: PqCodec, query: Seq<u32>, v: Seq<u32>) -> u32 {
    let size = codec.sub_dim as int;
    let n = codec.n_subspaces as nat;
    cosine_of_parts(
        ar,
        simd::term_sum(
            ar,
            Seq::new(n, |s: int| simd::dot_product(ar, piece(query, size, s), piece(v, size, s))),
        ),
        ar(Op::Sqrt, simd::dot_product(ar, query, query), 0, 0),
        simd::term_sum(
            ar,
            Seq::new(n, |s: int| simd::dot_product(ar, piece(v, size, s), piece(v, size, s))),
        ),
    )
}

/// What is read off the tables is the cosine similarity of the query and the
/// vector that the codes stand for. No vector is decoded for it.
pub proof fn scores_need_no_decoding(
    ar: Arith,
    codec: PqCodec,
    query: Seq<u32>,
    lut: QueryLut,
    codes: Seq<u8>,
)
    requires
        codec.wf(),
        lut.is_for(ar, codec, query),
        decodable(codec.books(), codes),
    ensures
        lut.score(ar, codes) == codec_score(ar, codec, query, codes),
        lut.score(ar, codes) == piecewise_cosine(ar, codec, query, codec.decoded(codes)),
{
    let dots = simd::entries(lut.dot@, lut.row_base@, codes);
    let norms = simd::entries(lut.norm_sq@, lut.row_base@, codes);
    assert forall|s: int| 0 <= s < codes.len() implies #[trigger] dots[s] == piece_dots(
        ar,
        codec,
        query,
        codes,
    )[s] && norms[s] == piece_norms(ar, codec, codes)[s] by {
        assert(codes[s] < codec.books()[s].len());
        assert(lut_entry(
            ar,
            codec,
            query,
            lut.dot@,
            lut.norm_sq@,
            lut.row_base@,
            s,
            codes[s] as int,
        ));
    }
    assert(dots =~= piece_dots(ar, codec, query, codes));
    assert forall|s: int| 0 <= s < codes.len() implies #[trigger] norms[s] == piece_norms(
        ar,
        codec,
        codes,
    )[s] by {
        assert(dots[s] == piece_dots(ar, codec, query, codes)[s]);
    }
    assert(norms =~= piece_norms(ar, codec, codes));
    let v = codec.decoded(codes);
    let size = codec.sub_dim as int;
    assert forall|s: int| 0 <= s < codes.len() implies #[trigger] piece(v, size, s)
        == codec.books()[s][codes[s] as int] by {
        decoding_selects_entries(codec, codes, s);
    }
    assert(piece_dots(ar, codec, query, codes) =~= Seq::new(
        codec.n_subspaces as nat,
        |s: int| simd::dot_product(ar, piece(query, size, s), piece(v, size, s)),
    ));
    assert(piece_norms(ar, codec, codes) =~= Seq::new(
        codec.n_subspaces as nat,
        |s: int| simd::dot_product(ar, piece(v, size, s), piece(v, size, s)),
    ));
}

/// A code selects an entry that is nearest to its piece, where the codebook
/// has no more entries than a byte can tell apart.
pub proof fn codes_select_the_nearest(ar: Arith, codec: PqCodec, v: Seq<u32>, s: int, c: int)
    requires
        codec.wf(),
        0 <= s < codec.n_subspaces,
        codec.books()[s].len() <= 0x100,
        0 <= c < codec.books()[s].len(),
        order::lt(
            vectors::squared_distance(
                ar,
                piece(v, codec.sub_dim as int, s),
                codec.books()[s][c],
            ),
            order::LARGEST,
        ),
    ensures
        codec.encoded(ar, v)[s] < codec.books()[s].len(),
        ({
            let book = codec.books()[s];
            let part = piece(v, codec.sub_dim as int, s);
            order::le(
                vectors::squared_distance(ar, part, book[codec.encoded(ar, v)[s] as int]),
                vectors::squared_distance(ar, part, book[c]),
            )
        }),
{
    let book = codec.books()[s];
    let d = vectors::distances_from(ar, piece(v, codec.sub_dim as int, s), book);
    vectors::least_is_least(d, d.len() as int, c);
}

/// Piece `s` of a decoded vector is the entry that code `s` selects.
pub proof fn decoding_selects_entries(codec: PqCodec, codes: Seq<u8>, s: int)
    requires
        codec.wf(),
        decodable(codec.books(), codes),
        0 <= s < codec.n_subspaces,
    ensures
        codec.decoded(codes).len() == codec.dim,
        piece(codec.decoded(codes), codec.sub_dim as int, s)
            == codec.books()[s][codes[s] as int],
{
    lemma_joined(codec, codes, codec.n_subspaces as int, s);
}

proof fn lemma_joined(codec: PqCodec, codes: Seq<u8>, n: int, s: int)
    requires
        codec.wf(),
        decodable(codec.books(), codes),
        0 <= s < n <= codec.n_subspaces,
    ensures
        joined(codec.books(), codes, n).len() == n * codec.sub_dim,
        piece(joined(codec.books(), codes, n), codec.sub_dim as int, s)
            == codec.books()[s][codes[s] as int],
    decreases n,
{
    let books = codec.books();
    let size = codec.sub_dim as int;
    let j = joined(books, codes, n);
    let e = books[n - 1][codes[n - 1] as int];
    assert(codes[n - 1] < books[n - 1].len());
    assert(e.len() == size);
    assert((n - 1) * size + size == n * size) by (nonlinear_arith);
    if s < n - 1 {
        lemma_joined(codec, codes, n - 1, s);
        lemma_piece_fits((n - 1) * size, n - 1, size, s);
        let before = joined(books, codes, n - 1);
        assert(piece(j, size, s) =~= piece(before, size, s));
    } else {
        if n > 1 {
            lemma_joined(codec, codes, n - 1, 0);
        } else {
            assert(joined(books, codes, 0).len() == 0);
            assert(0 * size == 0);
        }
        assert(piece(j, size, s) =~= e);
    }
}

} // verus!
