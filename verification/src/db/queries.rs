//! Searching the database, and what is built from its records.

use std::collections::HashMap;
use vstd::prelude::*;

use super::seconds;
use super::LatentDb;
use crate::arena::lemma_live_ids;
use crate::arith;
use crate::arith::Arith;
use crate::arith::Op;
use crate::bandit::growing;
use crate::bandit::RegionTree;
use crate::bandit::RegionTreeConfig;
use crate::index;
use crate::manifold::graph::ViableGraph;
use crate::manifold::wiring;
use crate::order;
use crate::pq;
use crate::pq::QueryLut;
use crate::predicate;
use crate::predicate::Condition;
use crate::sorting;
use crate::steering;
use crate::steering::SteeringVector;
use crate::text;

verus! {

/// The bit pattern of `60.0`: how quickly the weight of lower ranks falls.
pub const RRF_K: u32 = 0x4270_0000;

/// A record that a search found.
#[derive(Debug)]
pub struct SearchHit {
    pub id: u64,
    pub score: u32,
    pub metadata: String,
}

/// What rank `rank`, counted from zero, adds to the score of a record.
pub open spec fn rank_weight(ar: Arith, rank: int) -> u32 {
    ar(
        Op::Div,
        order::ONE,
        ar(Op::Add, RRF_K, arith::counted(ar, rank + 1), 0),
        0,
    )
}

/// `scores` with the weights of the first `n` ranks added to the records that
/// hold them.
pub open spec fn fused(ar: Arith, scores: Map<u64, u32>, ids: Seq<u64>, n: int) -> Map<u64, u32>
    decreases n,
{
    if n <= 0 {
        scores
    } else {
        let before = fused(ar, scores, ids, n - 1);
        let id = ids[n - 1];
        let score = if before.contains_key(id) {
            before[id]
        } else {
            order::ZERO
        };
        before.insert(id, ar(Op::Add, score, rank_weight(ar, n - 1), 0))
    }
}

/// The first `n` of `ids`, each where it first occurs.
pub open spec fn first_seen(ids: Seq<u64>, n: int) -> Seq<u64>
    decreases n,
{
    if n <= 0 {
        Seq::empty()
    } else if first_seen(ids, n - 1).contains(ids[n - 1]) {
        first_seen(ids, n - 1)
    } else {
        first_seen(ids, n - 1).push(ids[n - 1])
    }
}

impl LatentDb {
    /// The score of a record for `query`.
    pub open spec fn score_of(&self, ar: Arith, query: Seq<u32>, id: u64) -> u32 {
        pq::codec_score(ar, self.pq, query, self.records.record(id).codes)
    }

    /// The records that a search looks at.
    pub open spec fn candidates(&self, ar: Arith, query: Seq<u32>, nprobe: int) -> Seq<u64> {
        self.index.candidate_ids(ar, self.projector.projected(ar, query), nprobe)
    }

    /// The places of the candidates under their scores.
    pub open spec fn scored(&self, ar: Arith, query: Seq<u32>, ids: Seq<u64>) -> Seq<(u64, u64)> {
        Seq::new(
            ids.len(),
            |i: int| (order::falling_key(self.score_of(ar, query, ids[i])) as u64, i as u64),
        )
    }

    /// The candidates, the best score first; of equal scores the one that was
    /// looked at first comes first.
    pub open spec fn vector_order(&self, ar: Arith, query: Seq<u32>, nprobe: int) -> Seq<u64> {
        let ids = self.candidates(ar, query, nprobe);
        let ranked = sorting::ranked(self.scored(ar, query, ids));
        Seq::new(ranked.len(), |i: int| ids[ranked[i].1 as int])
    }

    /// `hit` is the stored record `id`, with the given score and its metadata.
    pub open spec fn is_hit(&self, hit: SearchHit, id: u64, score: u32) -> bool {
        &&& hit.id == id
        &&& hit.score == score
        &&& self.records.lives(id)
        &&& hit.metadata@ == self.contents()[id].text
    }

    /// `hits` are the best `k` records for `query`, with their scores and
    /// their metadata.
    pub open spec fn answers(
        &self,
        ar: Arith,
        query: Seq<u32>,
        k: int,
        nprobe: int,
        hits: Seq<SearchHit>,
    ) -> bool {
        let order = self.vector_order(ar, query, nprobe);
        &&& hits.len() == if k <= order.len() {
            k
        } else {
            order.len() as int
        }
        &&& forall|i: int|
            0 <= i < hits.len() ==> self.is_hit(
                #[trigger] hits[i],
                order[i],
                self.score_of(ar, query, order[i]),
            )
    }

    /// The distinct terms of a query, in lower case.
    pub open spec fn query_terms(terms: Seq<Seq<char>>) -> Seq<Seq<char>> {
        text::distinct(text::lowered(terms), terms.len() as int)
    }

    /// The fused scores: those from the ranks by vector, and those from the
    /// ranks by terms.
    pub open spec fn blended_scores(
        &self,
        ar: Arith,
        terms: Seq<Seq<char>>,
        query: Seq<u32>,
        nprobe: int,
    ) -> Map<u64, u32> {
        let by_vector = self.vector_order(ar, query, nprobe);
        let by_terms = seconds(self.records.lexical_order(Self::query_terms(terms)));
        fused(
            ar,
            fused(ar, Map::empty(), by_vector, by_vector.len() as int),
            by_terms,
            by_terms.len() as int,
        )
    }

    /// The records that either ranking holds.
    pub open spec fn blended_ids(
        &self,
        ar: Arith,
        terms: Seq<Seq<char>>,
        query: Seq<u32>,
        nprobe: int,
    ) -> Seq<u64> {
        let by_vector = self.vector_order(ar, query, nprobe);
        let by_terms = seconds(self.records.lexical_order(Self::query_terms(terms)));
        first_seen(by_vector + by_terms, (by_vector + by_terms).len() as int)
    }

    /// Those records, the best fused score first; of equal scores the lower
    /// id comes first.
    pub open spec fn blended_order(
        &self,
        ar: Arith,
        terms: Seq<Seq<char>>,
        query: Seq<u32>,
        nprobe: int,
    ) -> Seq<u64> {
        let scores = self.blended_scores(ar, terms, query, nprobe);
        let ids = self.blended_ids(ar, terms, query, nprobe);
        seconds(
            sorting::ranked(
                Seq::new(
                    ids.len(),
                    |i: int| (order::falling_key(scores[ids[i]]) as u64, ids[i]),
                ),
            ),
        )
    }

    /// Scores the candidates: the record of each place in the ranking, with
    /// its score.
    fn vector_ranked_candidates<F: Fn(Op, u32, u32, u32) -> u32>(
        &self,
        fpu: &F,
        query: &[u32],
        nprobe: usize,
    ) -> (r: Vec<(u64, u32)>)
        requires
            arith::is_unit(*fpu),
            self.answerable(),
            query@.len() == self.dim,
        ensures
            r@.len() == self.vector_order(arith::arith(*fpu), query@, nprobe as int).len(),
            forall|i: int|
                0 <= i < r@.len() ==> (#[trigger] r@[i]).0 == self.vector_order(
                    arith::arith(*fpu),
                    query@,
                    nprobe as int,
                )[i] && r@[i].1 == self.score_of(arith::arith(*fpu), query@, r@[i].0)
                    && self.records.lives(r@[i].0),
    {
        let ghost ar = arith::arith(*fpu);
        let projected: Vec<u32> = self.projector.project(fpu, query);
        let ids: Vec<u64> = self.index.candidates(fpu, &projected, nprobe);
        let buckets: usize = self.index.n_centroids();
        let total: usize = ids.len();
        proof {
            assert(ids@ == self.candidates(ar, query@, nprobe as int));
            lemma_candidates_live(*self, ar, query@, nprobe as int);
        }
        let lut: QueryLut = self.pq.build_query_lut(fpu, query);
        let mut scores: Vec<u32> = Vec::new();
        let mut pairs: Vec<(u64, u64)> = Vec::new();
        let mut i: usize = 0;
        while i < ids.len()
            invariant
                i <= ids@.len(),
                arith::is_unit(*fpu),
                ar == arith::arith(*fpu),
                self.answerable(),
                lut.is_for(ar, self.pq, query@),
                forall|j: int| 0 <= j < ids@.len() ==> self.records.lives(#[trigger] ids@[j]),
                scores@.len() == i,
                pairs@.len() == i,
                forall|j: int|
                    0 <= j < i ==> #[trigger] scores@[j] == self.score_of(ar, query@, ids@[j]),
                forall|j: int|
                    0 <= j < i ==> #[trigger] pairs@[j] == self.scored(ar, query@, ids@)[j],
            decreases ids@.len() - i,
        {
            let id: u64 = ids[i];
            assert(self.records.lives(id));
            assert(self.records.lives(id));
            assert(self.contents()[id] == self.records.record(id));
            let codes: &[u8] = self.records.codes(id).unwrap();
            proof {
                pq::tables_cover_codes(ar, self.pq, query@, lut, codes@);
                pq::scores_need_no_decoding(ar, self.pq, query@, lut, codes@);
            }
            let score: u32 = lut.cosine_score(fpu, codes);
            scores.push(score);
            pairs.push((order::key_falling(score), i as u64));
            i += 1;
        }
        assert(pairs@ =~= self.scored(ar, query@, ids@));
        let ranked: Vec<(u64, u64)> = sorting::rank_pairs(pairs);
        proof {
            sorting::lemma_ranked(pairs@);
        }
        let mut r: Vec<(u64, u32)> = Vec::new();
        let mut k: usize = 0;
        while k < ranked.len()
            invariant
                k <= ranked@.len(),
                total == ids@.len(),
                ar == arith::arith(*fpu),
                ids@ == self.candidates(ar, query@, nprobe as int),
                pairs@ == self.scored(ar, query@, ids@),
                ranked@ == sorting::ranked(pairs@),
                forall|x: (u64, u64)| #[trigger] ranked@.contains(x) <==> pairs@.contains(x),
                scores@.len() == ids@.len(),
                forall|j: int| 0 <= j < ids@.len() ==> self.records.lives(#[trigger] ids@[j]),
                forall|j: int|
                    0 <= j < ids@.len() ==> #[trigger] scores@[j] == self.score_of(
                        ar,
                        query@,
                        ids@[j],
                    ),
                r@.len() == k,
                forall|j: int|
                    0 <= j < k ==> (#[trigger] r@[j]).0 == self.vector_order(
                        ar,
                        query@,
                        nprobe as int,
                    )[j] && r@[j].1 == self.score_of(ar, query@, r@[j].0) && self.records.lives(
                        r@[j].0,
                    ),
            decreases ranked@.len() - k,
        {
            proof {
                assert(ranked@.contains(ranked@[k as int]));
                assert(pairs@.contains(ranked@[k as int]));
                let m = choose|m: int| 0 <= m < pairs@.len() && pairs@[m] == ranked@[k as int];
                assert(pairs@[m].1 == m);
            }
            let at: usize = ranked[k].1 as usize;
            assert(self.records.lives(ids@[at as int]));
            r.push((ids[at], scores[at]));
            k += 1;
        }
        r
    }

    /// The best `k` records for `query` among those in the `nprobe` nearest
    /// buckets; none if the query has the wrong number of coordinates.
    pub fn search<F: Fn(Op, u32, u32, u32) -> u32>(
        &self,
        fpu: &F,
        query: &[u32],
        k: usize,
        nprobe: usize,
    ) -> (r: Vec<SearchHit>)
        requires
            arith::is_unit(*fpu),
            self.answerable(),
        ensures
            query@.len() != self.dim ==> r@.len() == 0,
            query@.len() == self.dim ==> self.answers(
                arith::arith(*fpu),
                query@,
                k as int,
                nprobe as int,
                r@,
            ),
    {
        let mut r: Vec<SearchHit> = Vec::new();
        if query.len() != self.dim {
            return r;
        }
        let ghost ar = arith::arith(*fpu);
        let scored: Vec<(u64, u32)> = self.vector_ranked_candidates(fpu, query, nprobe);
        let ghost order = self.vector_order(ar, query@, nprobe as int);
        let mut i: usize = 0;
        while i < scored.len() && i < k
            invariant
                i <= scored@.len(),
                i <= k,
                self.answerable(),
                scored@.len() == order.len(),
                forall|j: int|
                    0 <= j < scored@.len() ==> (#[trigger] scored@[j]).0 == order[j] && scored@[j].1
                        == self.score_of(ar, query@, scored@[j].0) && self.records.lives(
                        scored@[j].0,
                    ),
                r@.len() == i,
                forall|j: int|
                    0 <= j < i ==> self.is_hit(
                        #[trigger] r@[j],
                        order[j],
                        self.score_of(ar, query@, order[j]),
                    ),
            decreases scored@.len() - i,
        {
            let (id, score) = scored[i];
            assert(scored@[i as int].0 == order[i as int]);
            let metadata: &str = self.records.metadata(id).unwrap();
            r.push(SearchHit { id, score, metadata: metadata.to_owned() });
            i += 1;
        }
        r
    }

    /// Adds the weights of a ranking to the scores.
    fn accumulate_rrf<F: Fn(Op, u32, u32, u32) -> u32>(
        fpu: &F,
        scores: &mut HashMap<u64, u32>,
        seen: &mut Vec<u64>,
        ranked_ids: &Vec<u64>,
        Ghost(before): Ghost<Seq<u64>>,
    )
        requires
            arith::is_unit(*fpu),
            old(seen)@ == first_seen(before, before.len() as int),
            forall|id: u64|
                old(seen)@.contains(id) <==> #[trigger] old(scores)@.contains_key(id),
        ensures
            final(scores)@ == fused(
                arith::arith(*fpu),
                old(scores)@,
                ranked_ids@,
                ranked_ids@.len() as int,
            ),
            final(seen)@ == first_seen(
                before + ranked_ids@,
                (before + ranked_ids@).len() as int,
            ),
            forall|id: u64|
                final(seen)@.contains(id) <==> #[trigger] final(scores)@.contains_key(id),
    {
        broadcast use vstd::std_specs::hash::group_hash_axioms;

        let ghost ar = arith::arith(*fpu);
        let ghost start = scores@;
        let ghost all = before + ranked_ids@;
        let ghost m = before.len() as int;
        proof {
            lemma_first_seen_prefix(before, all, m);
        }
        let mut rank: usize = 0;
        while rank < ranked_ids.len()
            invariant
                rank <= ranked_ids@.len(),
                arith::is_unit(*fpu),
                ar == arith::arith(*fpu),
                all == before + ranked_ids@,
                m == before.len(),
                scores@ == fused(ar, start, ranked_ids@, rank as int),
                seen@ == first_seen(all, m + rank),
                forall|id: u64| seen@.contains(id) <==> #[trigger] scores@.contains_key(id),
            decreases ranked_ids@.len() - rank,
        {
            broadcast use vstd::std_specs::hash::group_hash_axioms;

            let id: u64 = ranked_ids[rank];
            let ghost listed = seen@;
            let ghost known = scores@;
            assert(all[m + rank] == id);
            let old_score: u32 = match scores.get(&id) {
                Some(s) => *s,
                None => {
                    seen.push(id);
                    order::ZERO
                },
            };
            let place: u32 = arith::binary(fpu, Op::Add, RRF_K, arith::count(fpu, rank + 1));
            let weight: u32 = arith::binary(fpu, Op::Div, order::ONE, place);
            let score: u32 = arith::binary(fpu, Op::Add, old_score, weight);
            scores.insert(id, score);
            proof {
                assert(listed.contains(id) <==> known.contains_key(id));
                assert forall|x: u64| seen@.contains(x) <==> #[trigger] scores@.contains_key(x) by {
                    assert(listed.contains(x) <==> known.contains_key(x));
                    if known.contains_key(id) {
                        assert(seen@ == listed);
                    } else {
                        assert(seen@ == listed.push(id));
                        assert(seen@[listed.len() as int] == id);
                        if listed.contains(x) {
                            let j = choose|j: int| 0 <= j < listed.len() && listed[j] == x;
                            assert(seen@[j] == x);
                        }
                    }
                }
                assert(seen@ == first_seen(all, m + rank + 1));
            }
            rank += 1;
        }
    }

    /// Like `search`, but ranks by both the vector and the words of the
    /// metadata: a record's score is the sum of the weights of its ranks.
    /// Without terms it is `search`.
    pub fn search_blended<F: Fn(Op, u32, u32, u32) -> u32>(
        &self,
        fpu: &F,
        query_terms: &Vec<&str>,
        query_embedding: &[u32],
        k: usize,
        nprobe: usize,
    ) -> (r: Vec<SearchHit>)
        requires
            arith::is_unit(*fpu),
            self.answerable(),
        ensures
            query_embedding@.len() != self.dim ==> r@.len() == 0,
            query_embedding@.len() == self.dim && query_terms@.len() == 0 ==> self.answers(
                arith::arith(*fpu),
                query_embedding@,
                k as int,
                nprobe as int,
                r@,
            ),
            query_embedding@.len() == self.dim && query_terms@.len() > 0 ==> ({
                let ar = arith::arith(*fpu);
                let terms = text::slices(query_terms@);
                let order = self.blended_order(ar, terms, query_embedding@, nprobe as int);
                let scores = self.blended_scores(ar, terms, query_embedding@, nprobe as int);
                &&& r@.len() == if k <= order.len() {
                    k as int
                } else {
                    order.len() as int
                }
                &&& forall|i: int|
                    0 <= i < r@.len() ==> self.is_hit(
                        #[trigger] r@[i],
                        order[i],
                        scores[order[i]],
                    )
            }),
    {
        broadcast use vstd::std_specs::hash::group_hash_axioms;

        if query_embedding.len() != self.dim {
            return Vec::new();
        }
        if query_terms.len() == 0 {
            return self.search(fpu, query_embedding, k, nprobe);
        }
        let ghost ar = arith::arith(*fpu);
        let ghost terms = text::slices(query_terms@);
        let ghost query = query_embedding@;
        let lowered: Vec<String> = text::lowercase_all(query_terms);
        assert(text::texts(lowered@).len() == terms.len());
        let wanted: Vec<String> = text::deduplicate(lowered);
        assert(text::texts(wanted@) == Self::query_terms(terms));
        let scored: Vec<(u64, u32)> = self.vector_ranked_candidates(fpu, query_embedding, nprobe);
        let ghost by_vector = self.vector_order(ar, query, nprobe as int);
        let mut vector_ids: Vec<u64> = Vec::new();
        let mut i: usize = 0;
        while i < scored.len()
            invariant
                i <= scored@.len(),
                scored@.len() == by_vector.len(),
                forall|j: int| 0 <= j < scored@.len() ==> (#[trigger] scored@[j]).0 == by_vector[j],
                vector_ids@.len() == i,
                forall|j: int| 0 <= j < i ==> #[trigger] vector_ids@[j] == by_vector[j],
            decreases scored@.len() - i,
        {
            vector_ids.push(scored[i].0);
            i += 1;
        }
        assert(vector_ids@ =~= by_vector);
        let lexical: Vec<(u64, usize)> = self.records.lexical_rank(&wanted);
        let ghost by_terms = seconds(self.records.lexical_order(Self::query_terms(terms)));
        let mut lexical_ids: Vec<u64> = Vec::new();
        let mut j: usize = 0;
        while j < lexical.len()
            invariant
                j <= lexical@.len(),
                lexical@.len() == by_terms.len(),
                forall|m: int| 0 <= m < lexical@.len() ==> (#[trigger] lexical@[m]).0 == by_terms[m],
                lexical_ids@.len() == j,
                forall|m: int| 0 <= m < j ==> #[trigger] lexical_ids@[m] == by_terms[m],
            decreases lexical@.len() - j,
        {
            lexical_ids.push(lexical[j].0);
            j += 1;
        }
        assert(lexical_ids@ =~= by_terms);
        let mut scores: HashMap<u64, u32> = HashMap::new();
        let mut seen: Vec<u64> = Vec::new();
        assert(scores@ =~= Map::<u64, u32>::empty());
        assert(seen@ =~= first_seen(Seq::<u64>::empty(), 0));
        Self::accumulate_rrf(
            fpu,
            &mut scores,
            &mut seen,
            &vector_ids,
            Ghost(Seq::<u64>::empty()),
        );
        assert(Seq::<u64>::empty() + by_vector =~= by_vector);
        Self::accumulate_rrf(fpu, &mut scores, &mut seen, &lexical_ids, Ghost(by_vector));
        proof {
            lemma_first_seen(by_vector + by_terms, (by_vector + by_terms).len() as int);
            assert forall|x: int| 0 <= x < seen@.len() implies self.records.lives(
                #[trigger] seen@[x],
            ) by {
                let all = by_vector + by_terms;
                assert(all.contains(seen@[x]));
                let y = choose|y: int| 0 <= y < all.len() && all[y] == seen@[x];
                if y < by_vector.len() {
                    assert(scored@[y].0 == by_vector[y]);
                } else {
                    assert(lexical@[y - by_vector.len()].0 == by_terms[y - by_vector.len()]);
                }
            }
        }
        self.best_of(&scores, &seen, k)
    }

    /// The best `k` of the records `ids`, by their scores.
    fn best_of(&self, scores: &HashMap<u64, u32>, ids: &Vec<u64>, k: usize) -> (r: Vec<SearchHit>)
        requires
            self.answerable(),
            forall|i: int| 0 <= i < ids@.len() ==> self.records.lives(#[trigger] ids@[i]),
            forall|id: u64| ids@.contains(id) <==> #[trigger] scores@.contains_key(id),
        ensures
            ({
                let order = seconds(
                    sorting::ranked(
                        Seq::new(
                            ids@.len(),
                            |i: int| (order::falling_key(scores@[ids@[i]]) as u64, ids@[i]),
                        ),
                    ),
                );
                &&& r@.len() == if k <= order.len() {
                    k as int
                } else {
                    order.len() as int
                }
                &&& forall|i: int|
                    0 <= i < r@.len() ==> self.is_hit(
                        #[trigger] r@[i],
                        order[i],
                        scores@[order[i]],
                    )
            }),
    {
        broadcast use vstd::std_specs::hash::group_hash_axioms;

        let ghost keyed = Seq::new(
            ids@.len(),
            |i: int| (order::falling_key(scores@[ids@[i]]) as u64, ids@[i]),
        );
        let mut pairs: Vec<(u64, u64)> = Vec::new();
        let mut i: usize = 0;
        while i < ids.len()
            invariant
                i <= ids@.len(),
                forall|id: u64| ids@.contains(id) <==> #[trigger] scores@.contains_key(id),
                keyed == Seq::new(
                    ids@.len(),
                    |i: int| (order::falling_key(scores@[ids@[i]]) as u64, ids@[i]),
                ),
                pairs@.len() == i,
                forall|j: int| 0 <= j < i ==> #[trigger] pairs@[j] == keyed[j],
            decreases ids@.len() - i,
        {
            broadcast use vstd::std_specs::hash::group_hash_axioms;

            let id: u64 = ids[i];
            assert(ids@.contains(ids@[i as int]));
            assert(scores@.contains_key(id));
            let score: u32 = *scores.get(&id).unwrap();
            pairs.push((order::key_falling(score), id));
            i += 1;
        }
        assert(pairs@ =~= keyed);
        let ranked: Vec<(u64, u64)> = sorting::rank_pairs(pairs);
        let ghost order = seconds(ranked@);
        proof {
            sorting::lemma_ranked(keyed);
        }
        let mut r: Vec<SearchHit> = Vec::new();
        let mut j: usize = 0;
        while j < ranked.len() && j < k
            invariant
                j <= ranked@.len(),
                j <= k,
                self.answerable(),
                forall|i: int| 0 <= i < ids@.len() ==> self.records.lives(#[trigger] ids@[i]),
                forall|id: u64| ids@.contains(id) <==> #[trigger] scores@.contains_key(id),
                keyed == Seq::new(
                    ids@.len(),
                    |i: int| (order::falling_key(scores@[ids@[i]]) as u64, ids@[i]),
                ),
                order == seconds(ranked@),
                forall|x: (u64, u64)| #[trigger] ranked@.contains(x) <==> keyed.contains(x),
                r@.len() == j,
                forall|i: int|
                    0 <= i < j ==> self.is_hit(#[trigger] r@[i], order[i], scores@[order[i]]),
            decreases ranked@.len() - j,
        {
            broadcast use vstd::std_specs::hash::group_hash_axioms;

            let id: u64 = ranked[j].1;
            proof {
                assert(ranked@.contains(ranked@[j as int]));
                assert(keyed.contains(ranked@[j as int]));
                let m = choose|m: int| 0 <= m < keyed.len() && keyed[m] == ranked@[j as int];
                assert(ids@[m] == id);
                assert(self.records.lives(ids@[m]));
                assert(ids@.contains(id));
                assert(scores@.contains_key(id));
                assert(order[j as int] == id);
            }
            let score: u32 = *scores.get(&id).unwrap();
            let metadata: &str = self.records.metadata(id).unwrap();
            let ghost before = r@;
            r.push(SearchHit { id, score, metadata: metadata.to_owned() });
            proof {
                assert(self.is_hit(r@[j as int], id, scores@[id]));
                assert forall|i: int| 0 <= i < j + 1 implies self.is_hit(
                    #[trigger] r@[i],
                    order[i],
                    scores@[order[i]],
                ) by {
                    if i < j {
                        assert(r@[i] == before[i]);
                    }
                }
            }
            j += 1;
        }
        r
    }

    /// Like `search`, but for the query shifted by `steering`.
    pub fn search_steered<F: Fn(Op, u32, u32, u32) -> u32>(
        &self,
        fpu: &F,
        query: &[u32],
        k: usize,
        nprobe: usize,
        steering: &SteeringVector,
    ) -> (r: Vec<SearchHit>)
        requires
            arith::is_unit(*fpu),
            self.answerable(),
        ensures
            query@.len() != self.dim || steering.direction@.len() != self.dim ==> r@.len() == 0,
            query@.len() == self.dim && steering.direction@.len() == self.dim ==> self.answers(
                arith::arith(*fpu),
                steering::shifted(
                    arith::arith(*fpu),
                    query@,
                    steering.direction@,
                    arith::arith(*fpu)(Op::Mul, steering.alpha, order::ONE, 0),
                ),
                k as int,
                nprobe as int,
                r@,
            ),
    {
        if query.len() != self.dim || steering.dim() != self.dim {
            return Vec::new();
        }
        let mut steered: Vec<u32> = crate::vectors::from_slice(query);
        steering.apply(fpu, &mut steered);
        self.search(fpu, &steered, k, nprobe)
    }

    /// The records and the vectors that their codes stand for, in order.
    pub open spec fn points(&self) -> Seq<(u64, Seq<u32>)> {
        let ids = self.records.id_list();
        Seq::new(ids.len(), |i: int| (ids[i], self.approximation(ids[i])))
    }

    /// Decodes all records.
    fn decode_all(&self) -> (r: Vec<(u64, Vec<u32>)>)
        requires
            self.readable(),
        ensures
            wiring::points(r@) == self.points(),
            r@.len() == self.records.len,
            forall|i: int| 0 <= i < r@.len() ==> (#[trigger] r@[i]).1@.len() == self.dim,
    {
        let slots: usize = self.records.capacity();
        let ids: Vec<u64> = self.records.ids();
        proof {
            lemma_live_ids(self.records.live@, self.records.live@.len() as int);
        }
        let mut r: Vec<(u64, Vec<u32>)> = Vec::new();
        let mut i: usize = 0;
        while i < ids.len()
            invariant
                i <= ids@.len(),
                self.readable(),
                ids@ == self.records.id_list(),
                forall|j: int| 0 <= j < ids@.len() ==> self.records.lives(#[trigger] ids@[j]),
                r@.len() == i,
                forall|j: int|
                    0 <= j < i ==> (#[trigger] r@[j]).0 == ids@[j] && r@[j].1@
                        == self.approximation(ids@[j]) && r@[j].1@.len() == self.dim,
            decreases ids@.len() - i,
        {
            assert(self.records.lives(ids@[i as int]));
            let v: Vec<u32> = self.get_approx_vector(ids[i]).unwrap();
            r.push((ids[i], v));
            i += 1;
        }
        assert(wiring::points(r@) =~= self.points());
        r
    }

    /// A graph over the records whose vectors satisfy `p`, each connected
    /// with the `k_nearest` nearest.
    pub fn build_viable_graph<F: Fn(Op, u32, u32, u32) -> u32, P: Fn(&[u32]) -> bool>(
        &self,
        fpu: &F,
        p: &P,
        k_nearest: usize,
        edge_midpoint_check: bool,
    ) -> (r: ViableGraph)
        requires
            arith::is_unit(*fpu),
            predicate::is_predicate(*p),
            self.readable(),
            self.records.len <= u32::MAX,
        ensures
            wiring::connects(
                arith::arith(*fpu),
                predicate::condition(*p),
                self.points(),
                k_nearest as int,
                edge_midpoint_check,
                r@,
            ),
    {
        let records: Vec<(u64, Vec<u32>)> = self.decode_all();
        wiring::build_viable_graph(fpu, &records, p, k_nearest, edge_midpoint_check)
    }

    /// Like `build_viable_graph`, for a predicate that decides `cond`.
    pub(crate) fn graph_by_condition<F: Fn(Op, u32, u32, u32) -> u32, P: Fn(&[u32]) -> bool>(
        &self,
        fpu: &F,
        p: &P,
        Ghost(cond): Ghost<Condition>,
        k_nearest: usize,
    ) -> (r: ViableGraph)
        requires
            arith::is_unit(*fpu),
            predicate::decides(*p, cond),
            self.readable(),
            self.records.len <= u32::MAX,
        ensures
            wiring::connects(
                arith::arith(*fpu),
                cond,
                self.points(),
                k_nearest as int,
                false,
                r@,
            ),
            self.points().len() == self.records.len,
    {
        let records: Vec<(u64, Vec<u32>)> = self.decode_all();
        assert(wiring::points(records@).len() == records@.len());
        wiring::build_by_condition(fpu, &records, p, Ghost(cond), k_nearest, false)
    }

    /// A tree of regions over the records, of which there is at least one.
    /// Draws of `uniform` lie between minus one and one.
    pub fn build_region_tree<F: Fn(Op, u32, u32, u32) -> u32, U: Fn(u64, u64) -> u32>(
        &self,
        fpu: &F,
        uniform: &U,
        config: RegionTreeConfig,
    ) -> (r: RegionTree)
        requires
            arith::is_unit(*fpu),
            arith::is_source(*uniform),
            self.readable(),
            self.records.len > 0,
            growing::countable(config.pca_dim as int, self.dim as int),
        ensures
            r@ == growing::grown(
                arith::arith(*fpu),
                arith::noise(*uniform),
                self.points(),
                config,
                0,
            ),
    {
        let records: Vec<(u64, Vec<u32>)> = self.decode_all();
        assert(records@[0].1@.len() == self.dim);
        RegionTree::build(fpu, uniform, &records, config)
    }
}

/// What a search looks at is stored.
pub(crate) proof fn lemma_candidates_live(db: LatentDb, ar: Arith, query: Seq<u32>, nprobe: int)
    requires
        db.answerable(),
        db.index.centroids@.len() <= u64::MAX,
    ensures
        forall|j: int|
            0 <= j < db.candidates(ar, query, nprobe).len() ==> db.records.lives(
                #[trigger] db.candidates(ar, query, nprobe)[j],
            ),
{
    let v = db.projector.projected(ar, query);
    let d = index::distances_to(ar, crate::vectors::rows(db.index.centroids@), v);
    sorting::lemma_ranked(index::keyed(d));
    lemma_gathered_live(
        db,
        d,
        index::probes(db.index.centroids@.len() as int, nprobe),
    );
}

proof fn lemma_gathered_live(db: LatentDb, d: Seq<u32>, n: int)
    requires
        db.answerable(),
        d.len() == db.index.centroids@.len(),
        d.len() <= u64::MAX,
        n <= d.len(),
    ensures
        forall|j: int|
            0 <= j < index::gathered(
                db.index.bucket_lists(),
                index::probing_order(d),
                n,
            ).len() ==> db.records.lives(
                #[trigger] index::gathered(
                    db.index.bucket_lists(),
                    index::probing_order(d),
                    n,
                )[j],
            ),
    decreases n,
{
    if n > 0 {
        lemma_gathered_live(db, d, n - 1);
        let order = index::probing_order(d);
        let buckets = db.index.bucket_lists();
        let before = index::gathered(buckets, order, n - 1);
        let all = index::gathered(buckets, order, n);
        sorting::lemma_ranked(index::keyed(d));
        assert(order.contains(order[n - 1]));
        assert(index::keyed(d).contains(order[n - 1]));
        let c = choose|c: int| 0 <= c < index::keyed(d).len() && index::keyed(d)[c] == order[n - 1];
        let b = buckets[order[n - 1].1 as int];
        assert forall|j: int| 0 <= j < all.len() implies db.records.lives(#[trigger] all[j]) by {
            if j < before.len() {
                assert(all[j] == before[j]);
            } else {
                let id = b[j - before.len()];
                assert(all[j] == id);
                assert(b.contains(id));
                assert(db.index.bucket_lists()[c].contains(id));
                assert(db.index.assignment@.contains_key(id));
            }
        }
    }
}

proof fn lemma_first_seen_prefix(a: Seq<u64>, b: Seq<u64>, n: int)
    requires
        n <= a.len(),
        n <= b.len(),
        forall|i: int| 0 <= i < n ==> a[i] == #[trigger] b[i],
    ensures
        first_seen(a, n) == first_seen(b, n),
    decreases n,
{
    if n > 0 {
        lemma_first_seen_prefix(a, b, n - 1);
    }
}

/// What is seen first is among what is seen.
proof fn lemma_first_seen(ids: Seq<u64>, n: int)
    requires
        0 <= n <= ids.len(),
    ensures
        forall|i: int|
            0 <= i < first_seen(ids, n).len() ==> ids.contains(#[trigger] first_seen(ids, n)[i]),
    decreases n,
{
    if n > 0 {
        lemma_first_seen(ids, n - 1);
        let before = first_seen(ids, n - 1);
        let all = first_seen(ids, n);
        assert forall|i: int| 0 <= i < all.len() implies ids.contains(#[trigger] all[i]) by {
            if i < before.len() {
                assert(all[i] == before[i]);
            } else {
                assert(ids[n - 1] == all[i]);
            }
        }
    }
}

/// A search that looks into every bucket ranks every record.
pub proof fn exhaustive_search_ranks_all(
    db: LatentDb,
    ar: Arith,
    query: Seq<u32>,
    nprobe: int,
    id: u64,
)
    requires
        db.wf(),
        nprobe >= db.index.centroids@.len(),
        db.index.centroids@.len() <= u64::MAX,
        db.candidates(ar, query, nprobe).len() <= u64::MAX,
        db.records.lives(id),
    ensures
        db.vector_order(ar, query, nprobe).contains(id),
{
    assert(db.fits(id));
    index::full_probe_finds_all(
        db.index,
        ar,
        db.projector.projected(ar, query),
        nprobe,
        id,
    );
    let ids = db.candidates(ar, query, nprobe);
    let i = choose|i: int| 0 <= i < ids.len() && ids[i] == id;
    let pairs = db.scored(ar, query, ids);
    sorting::lemma_ranked(pairs);
    let ranked = sorting::ranked(pairs);
    assert(pairs.contains(pairs[i]));
    assert(ranked.contains(pairs[i]));
    let k = choose|k: int| 0 <= k < ranked.len() && ranked[k] == pairs[i];
    assert(db.vector_order(ar, query, nprobe)[k] == id);
}

/// In a ranking no later record has a better score than an earlier one.
pub proof fn rankings_fall(db: LatentDb, ar: Arith, query: Seq<u32>, nprobe: int, i: int, j: int)
    requires
        db.candidates(ar, query, nprobe).len() <= u64::MAX,
        0 <= i < j < db.vector_order(ar, query, nprobe).len(),
    ensures
        !order::lt(
            db.score_of(ar, query, db.vector_order(ar, query, nprobe)[i]),
            db.score_of(ar, query, db.vector_order(ar, query, nprobe)[j]),
        ),
{
    let ids = db.candidates(ar, query, nprobe);
    let pairs = db.scored(ar, query, ids);
    let ranked = sorting::ranked(pairs);
    sorting::lemma_ranked(pairs);
    assert(sorting::pair_order()(ranked[i], ranked[j]));
    assert(ranked.contains(ranked[i]) && ranked.contains(ranked[j]));
    assert(pairs.contains(ranked[i]) && pairs.contains(ranked[j]));
    let a = choose|a: int| 0 <= a < pairs.len() && pairs[a] == ranked[i];
    let b = choose|b: int| 0 <= b < pairs.len() && pairs[b] == ranked[j];
    assert(pairs[a].1 == a && pairs[b].1 == b);
}

/// A ranking holds no record twice.
pub proof fn rankings_have_no_repeats(db: LatentDb, ar: Arith, query: Seq<u32>, nprobe: int)
    requires
        db.answerable(),
        db.index.centroids@.len() <= u64::MAX,
        db.candidates(ar, query, nprobe).len() <= u64::MAX,
    ensures
        db.vector_order(ar, query, nprobe).no_duplicates(),
        forall|i: int|
            0 <= i < db.vector_order(ar, query, nprobe).len() ==> db.records.lives(
                #[trigger] db.vector_order(ar, query, nprobe)[i],
            ),
{
    let ids = db.candidates(ar, query, nprobe);
    index::candidates_are_distinct(db.index, ar, db.projector.projected(ar, query), nprobe);
    lemma_candidates_live(db, ar, query, nprobe);
    let pairs = db.scored(ar, query, ids);
    let ranked = sorting::ranked(pairs);
    let order = db.vector_order(ar, query, nprobe);
    assert forall|i: int, j: int| 0 <= i < pairs.len() && 0 <= j < pairs.len() && i
        != j implies pairs[i] != pairs[j] by {
        assert(pairs[i].1 == i && pairs[j].1 == j);
    }
    assert(pairs.no_duplicates());
    sorting::lemma_ranked(pairs);
    assert forall|i: int| #![trigger ranked[i]] 0 <= i < ranked.len() implies 0 <= ranked[i].1
        < ids.len() && ranked[i] == pairs[ranked[i].1 as int] by {
        assert(ranked.contains(ranked[i]));
        let k = choose|k: int| 0 <= k < pairs.len() && pairs[k] == ranked[i];
        assert(pairs[k].1 == k);
    }
    assert forall|i: int, j: int| 0 <= i < order.len() && 0 <= j < order.len() && i
        != j implies order[i] != order[j] by {
        assert(ranked[i] != ranked[j]);
        assert(ranked[i] == pairs[ranked[i].1 as int]);
        assert(ranked[j] == pairs[ranked[j].1 as int]);
        assert(ids[ranked[i].1 as int] != ids[ranked[j].1 as int]);
    }
    assert forall|i: int| 0 <= i < order.len() implies db.records.lives(#[trigger] order[i]) by {
        assert(ranked[i] == pairs[ranked[i].1 as int]);
        assert(db.records.lives(ids[ranked[i].1 as int]));
    }
}

} // verus!
