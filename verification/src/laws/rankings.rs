//! In which order a search gives its answers, and with which scores.

use vstd::prelude::*;

use super::number;
use crate::arith::Arith;
use crate::arith::Op;
use crate::arena;
use crate::arena::RecordArena;
use crate::db::queries;
use crate::db::seconds;
use crate::db::LatentDb;
use crate::db::queries::SearchHit;
use crate::order;
use crate::sorting;
use crate::text;

verus! {

/// What a record gets for rank `i`, counted from zero: one over sixty and its
/// rank counted from one.
pub open spec fn reciprocal(ar: Arith, i: int) -> u32 {
    ar(Op::Div, 0x3f80_0000, ar(Op::Add, 0x4270_0000, number(ar, i + 1), 0), 0)
}

proof fn lemma_not_ranked(ar: Arith, scores: Map<u64, u32>, ids: Seq<u64>, n: int, id: u64)
    requires
        0 <= n <= ids.len(),
        forall|i: int| 0 <= i < n ==> ids[i] != id,
    ensures
        queries::fused(ar, scores, ids, n).contains_key(id) == scores.contains_key(id),
        queries::fused(ar, scores, ids, n)[id] == scores[id],
    decreases n,
{
    if n > 0 {
        lemma_not_ranked(ar, scores, ids, n - 1, id);
    }
}

proof fn lemma_ranked_once(ar: Arith, scores: Map<u64, u32>, ids: Seq<u64>, n: int, i: int)
    requires
        0 <= i < n <= ids.len(),
        ids.no_duplicates(),
    ensures
        queries::fused(ar, scores, ids, n).contains_key(ids[i]),
        scores.contains_key(ids[i]) ==> queries::fused(ar, scores, ids, n)[ids[i]] == ar(
            Op::Add,
            scores[ids[i]],
            reciprocal(ar, i),
            0,
        ),
        !scores.contains_key(ids[i]) ==> queries::fused(ar, scores, ids, n)[ids[i]] == ar(
            Op::Add,
            0,
            reciprocal(ar, i),
            0,
        ),
    decreases n,
{
    if i < n - 1 {
        lemma_ranked_once(ar, scores, ids, n - 1, i);
        assert(ids[i] != ids[n - 1]);
    } else {
        assert forall|j: int| 0 <= j < n - 1 implies ids[j] != ids[i] by {}
        lemma_not_ranked(ar, scores, ids, n - 1, ids[i]);
        assert(queries::rank_weight(ar, i) == reciprocal(ar, i));
    }
}

/// `scores` holds the records of both rankings. A record of both has the sum
/// of what its ranks are worth, that by vector first; a record of one has what
/// its rank there is worth.
pub open spec fn adds_reciprocals(
    ar: Arith,
    by_vector: Seq<u64>,
    by_terms: Seq<u64>,
    scores: Map<u64, u32>,
) -> bool {
    &&& forall|id: u64| #[trigger]
        scores.contains_key(id) <==> by_vector.contains(id) || by_terms.contains(id)
    &&& forall|i: int, j: int|
        #![trigger by_vector[i], by_terms[j]]
        0 <= i < by_vector.len() && 0 <= j < by_terms.len() && by_vector[i] == by_terms[j]
            ==> scores[by_vector[i]] == ar(
            Op::Add,
            ar(Op::Add, 0, reciprocal(ar, i), 0),
            reciprocal(ar, j),
            0,
        )
    &&& forall|i: int|
        0 <= i < by_vector.len() && !by_terms.contains(#[trigger] by_vector[i])
            ==> scores[by_vector[i]] == ar(Op::Add, 0, reciprocal(ar, i), 0)
    &&& forall|j: int|
        0 <= j < by_terms.len() && !by_vector.contains(#[trigger] by_terms[j])
            ==> scores[by_terms[j]] == ar(Op::Add, 0, reciprocal(ar, j), 0)
}

/// Two rankings, each without repeats, accumulate to the sums of what the
/// ranks are worth.
pub proof fn accumulated_ranks_add_up(ar: Arith, by_vector: Seq<u64>, by_terms: Seq<u64>)
    requires
        by_vector.no_duplicates(),
        by_terms.no_duplicates(),
    ensures
        adds_reciprocals(
            ar,
            by_vector,
            by_terms,
            queries::fused(
                ar,
                queries::fused(ar, Map::empty(), by_vector, by_vector.len() as int),
                by_terms,
                by_terms.len() as int,
            ),
        ),
{
    let none = Map::<u64, u32>::empty();
    let v = by_vector.len() as int;
    let t = by_terms.len() as int;
    let first = queries::fused(ar, none, by_vector, v);
    let both = queries::fused(ar, first, by_terms, t);
    assert forall|id: u64| #[trigger] first.contains_key(id) <==> by_vector.contains(id) by {
        if by_vector.contains(id) {
            let i = choose|i: int| 0 <= i < v && by_vector[i] == id;
            lemma_ranked_once(ar, none, by_vector, v, i);
        } else {
            lemma_not_ranked(ar, none, by_vector, v, id);
        }
    }
    assert forall|id: u64| #[trigger]
        both.contains_key(id) <==> by_vector.contains(id) || by_terms.contains(id) by {
        assert(first.contains_key(id) <==> by_vector.contains(id));
        if by_terms.contains(id) {
            let j = choose|j: int| 0 <= j < t && by_terms[j] == id;
            lemma_ranked_once(ar, first, by_terms, t, j);
        } else {
            lemma_not_ranked(ar, first, by_terms, t, id);
        }
    }
    assert forall|i: int, j: int|
        #![trigger by_vector[i], by_terms[j]]
        0 <= i < v && 0 <= j < t && by_vector[i] == by_terms[j] implies both[by_vector[i]] == ar(
        Op::Add,
        ar(Op::Add, 0, reciprocal(ar, i), 0),
        reciprocal(ar, j),
        0,
    ) by {
        lemma_ranked_once(ar, none, by_vector, v, i);
        lemma_ranked_once(ar, first, by_terms, t, j);
        assert(first.contains_key(by_vector[i]));
    }
    assert forall|i: int|
        0 <= i < v && !by_terms.contains(
            #[trigger] by_vector[i],
        ) implies both[by_vector[i]] == ar(Op::Add, 0, reciprocal(ar, i), 0) by {
        lemma_ranked_once(ar, none, by_vector, v, i);
        lemma_not_ranked(ar, first, by_terms, t, by_vector[i]);
    }
    assert forall|j: int|
        0 <= j < t && !by_vector.contains(
            #[trigger] by_terms[j],
        ) implies both[by_terms[j]] == ar(Op::Add, 0, reciprocal(ar, j), 0) by {
        assert(!first.contains_key(by_terms[j]));
        lemma_ranked_once(ar, first, by_terms, t, j);
    }
}

/// The words of a record, in lower case.
pub open spec fn vocabulary(records: RecordArena, id: u64) -> Seq<Seq<char>> {
    let words = text::words_of(records.record(id).text);
    Seq::new(words.len(), |i: int| text::lowercase_of(words[i]))
}

/// How many of `terms` a record has among its words.
pub open spec fn mentions(records: RecordArena, terms: Seq<Seq<char>>, id: u64) -> nat {
    terms.filter(|t: Seq<char>| vocabulary(records, id).contains(t)).len()
}

proof fn lemma_overlap(terms: Seq<Seq<char>>, words: Seq<Seq<char>>, n: int)
    requires
        0 <= n <= terms.len(),
    ensures
        text::overlap(terms, words, n) == terms.take(n).filter(
            |t: Seq<char>| words.contains(t),
        ).len(),
        text::overlap(terms, words, n) <= n,
    decreases n,
{
    reveal(Seq::filter);
    if n > 0 {
        lemma_overlap(terms, words, n - 1);
        assert(terms.take(n).drop_last() =~= terms.take(n - 1));
        assert(terms.take(n).last() == terms[n - 1]);
    }
}

proof fn lemma_mentions(records: RecordArena, terms: Seq<Seq<char>>, id: u64)
    ensures
        records.matches_in(terms, id) == mentions(records, terms, id),
        mentions(records, terms, id) <= terms.len(),
{
    let words = text::lowered(text::words_of(records.record(id).text));
    assert(words =~= vocabulary(records, id));
    lemma_overlap(terms, words, terms.len() as int);
    assert(terms.take(terms.len() as int) =~= terms);
}

proof fn lemma_matching(records: RecordArena, terms: Seq<Seq<char>>, n: int)
    requires
        0 <= n <= records.id_list().len(),
        sorting::rising(records.id_list()),
        terms.len() <= u64::MAX,
    ensures
        forall|i: int|
            0 <= i < records.matching(terms, n).len() ==> ({
                let x = #[trigger] records.matching(terms, n)[i];
                &&& x.0 == u64::MAX - mentions(records, terms, x.1)
                &&& mentions(records, terms, x.1) > 0
                &&& exists|k: int| 0 <= k < n && #[trigger] records.id_list()[k] == x.1
            }),
        forall|k: int|
            0 <= k < n && mentions(records, terms, #[trigger] records.id_list()[k]) > 0
                ==> records.matching(terms, n).contains(
                (
                    (u64::MAX - mentions(records, terms, records.id_list()[k])) as u64,
                    records.id_list()[k],
                ),
            ),
        forall|i: int, j: int|
            0 <= i < j < records.matching(terms, n).len() ==> records.matching(terms, n)[i].1
                < records.matching(terms, n)[j].1,
    decreases n,
{
    if n > 0 {
        lemma_matching(records, terms, n - 1);
        let ids = records.id_list();
        let before = records.matching(terms, n - 1);
        let all = records.matching(terms, n);
        let id = ids[n - 1];
        lemma_mentions(records, terms, id);
        assert forall|i: int| 0 <= i < all.len() implies ({
            let x = #[trigger] all[i];
            &&& x.0 == u64::MAX - mentions(records, terms, x.1)
            &&& mentions(records, terms, x.1) > 0
            &&& exists|k: int| 0 <= k < n && #[trigger] ids[k] == x.1
        }) by {
            if i < before.len() {
                assert(all[i] == before[i]);
                let k = choose|k: int| 0 <= k < n - 1 && #[trigger] ids[k] == before[i].1;
                assert(ids[k] == all[i].1);
            } else {
                assert(ids[n - 1] == all[i].1);
            }
        }
        assert forall|k: int|
            0 <= k < n && mentions(records, terms, #[trigger] ids[k]) > 0 implies all.contains(
            ((u64::MAX - mentions(records, terms, ids[k])) as u64, ids[k]),
        ) by {
            let x = ((u64::MAX - mentions(records, terms, ids[k])) as u64, ids[k]);
            if k < n - 1 {
                assert(before.contains(x));
                let i = choose|i: int| 0 <= i < before.len() && before[i] == x;
                assert(all[i] == x);
            } else {
                assert(all[before.len() as int] == x);
            }
        }
        assert forall|i: int, j: int| 0 <= i < j < all.len() implies all[i].1 < all[j].1 by {
            if j < before.len() {
                assert(before[i].1 < before[j].1);
            } else {
                assert(all[i] == before[i]);
                let k = choose|k: int| 0 <= k < n - 1 && #[trigger] ids[k] == before[i].1;
                assert(ids[k] < ids[n - 1]);
            }
        }
    }
}

/// The ranking by terms holds the records that have at least one of them among
/// their words, each once: those that have more of them first, and of those
/// that have as many the lower ids first.
pub proof fn more_mentions_come_first(records: RecordArena, terms: Seq<Seq<char>>)
    requires
        records.live@.len() <= u64::MAX,
        terms.len() <= u64::MAX,
    ensures
        seconds(records.lexical_order(terms)).no_duplicates(),
        forall|id: u64| #[trigger]
            seconds(records.lexical_order(terms)).contains(id) <==> records.lives(id) && mentions(
                records,
                terms,
                id,
            ) > 0,
        forall|i: int|
            0 <= i < records.lexical_order(terms).len() ==> u64::MAX - (
            #[trigger] records.lexical_order(terms)[i]).0 == mentions(
                records,
                terms,
                records.lexical_order(terms)[i].1,
            ),
        forall|i: int, j: int|
            0 <= i < j < records.lexical_order(terms).len() ==> ({
                let x = (#[trigger] records.lexical_order(terms)[i]).1;
                let y = (#[trigger] records.lexical_order(terms)[j]).1;
                ||| mentions(records, terms, x) > mentions(records, terms, y)
                ||| (mentions(records, terms, x) == mentions(records, terms, y) && x < y)
            }),
{
    let ids = records.id_list();
    let n = ids.len() as int;
    arena::lemma_live_ids(records.live@, records.live@.len() as int);
    lemma_matching(records, terms, n);
    let all = records.matching(terms, n);
    let ranked = records.lexical_order(terms);
    sorting::lemma_ranked(all);
    assert forall|i: int, j: int| 0 <= i < all.len() && 0 <= j < all.len() && i != j implies all[i]
        != all[j] by {
        if i < j {
            assert(all[i].1 < all[j].1);
        } else {
            assert(all[j].1 < all[i].1);
        }
    }
    assert(all.no_duplicates());
    assert forall|i: int|
        #![trigger ranked[i]]
        0 <= i < ranked.len() implies u64::MAX - ranked[i].0 == mentions(
        records,
        terms,
        ranked[i].1,
    ) && all.contains(ranked[i]) by {
        assert(ranked.contains(ranked[i]));
        let k = choose|k: int| 0 <= k < all.len() && all[k] == ranked[i];
        assert(all[k] == ranked[i]);
    }
    assert forall|i: int, j: int|
        0 <= i < ranked.len() && 0 <= j < ranked.len() && i != j implies ranked[i].1
        != ranked[j].1 by {
        assert(ranked[i] != ranked[j]);
        assert(ranked[i].0 == u64::MAX - mentions(records, terms, ranked[i].1));
        assert(ranked[j].0 == u64::MAX - mentions(records, terms, ranked[j].1));
    }
    assert(seconds(ranked).no_duplicates());
    assert forall|id: u64| #[trigger]
        seconds(ranked).contains(id) <==> records.lives(id) && mentions(records, terms, id) > 0 by {
        if seconds(ranked).contains(id) {
            let i = choose|i: int| 0 <= i < seconds(ranked).len() && seconds(ranked)[i] == id;
            assert(all.contains(ranked[i]));
            let k = choose|k: int| 0 <= k < all.len() && all[k] == ranked[i];
            assert(all[k].1 == id);
            let m = choose|m: int| 0 <= m < n && #[trigger] ids[m] == all[k].1;
            assert(ids[m] == id);
        }
        if records.lives(id) && mentions(records, terms, id) > 0 {
            assert(id as int as u64 == id);
            assert(ids.contains((id as int) as u64));
            let m = choose|m: int| 0 <= m < n && ids[m] == id;
            assert(ids[m] == id);
            let x = ((u64::MAX - mentions(records, terms, id)) as u64, id);
            assert(all.contains(x));
            assert(ranked.contains(x));
            let i = choose|i: int| 0 <= i < ranked.len() && ranked[i] == x;
            assert(seconds(ranked)[i] == id);
        }
    }
    assert forall|i: int, j: int| 0 <= i < j < ranked.len() implies ({
        let x = (#[trigger] ranked[i]).1;
        let y = (#[trigger] ranked[j]).1;
        ||| mentions(records, terms, x) > mentions(records, terms, y)
        ||| (mentions(records, terms, x) == mentions(records, terms, y) && x < y)
    }) by {
        assert(sorting::pair_order()(ranked[i], ranked[j]));
        assert(ranked[i].1 != ranked[j].1);
    }
}

proof fn lemma_distinct(words: Seq<Seq<char>>, n: int)
    requires
        0 <= n <= words.len(),
    ensures
        text::distinct(words, n).no_duplicates(),
        text::distinct(words, n).len() <= n,
        forall|w: Seq<char>| #[trigger]
            text::distinct(words, n).contains(w) <==> exists|k: int|
                0 <= k < n && #[trigger] words[k] == w,
    decreases n,
{
    if n > 0 {
        lemma_distinct(words, n - 1);
        let before = text::distinct(words, n - 1);
        let all = text::distinct(words, n);
        assert forall|w: Seq<char>| #[trigger]
            all.contains(w) <==> exists|k: int| 0 <= k < n && #[trigger] words[k] == w by {
            if all.contains(w) {
                let i = choose|i: int| 0 <= i < all.len() && all[i] == w;
                if i < before.len() {
                    assert(before[i] == w);
                    assert(before.contains(w));
                    let k = choose|k: int| 0 <= k < n - 1 && #[trigger] words[k] == w;
                    assert(words[k] == w);
                } else {
                    assert(words[n - 1] == w);
                }
            }
            if exists|k: int| 0 <= k < n && #[trigger] words[k] == w {
                let k = choose|k: int| 0 <= k < n && #[trigger] words[k] == w;
                if k < n - 1 {
                    assert(words[k] == w);
                    assert(before.contains(w));
                    let i = choose|i: int| 0 <= i < before.len() && before[i] == w;
                    assert(all[i] == w);
                } else if before.contains(w) {
                    assert(all == before);
                } else {
                    assert(all[before.len() as int] == w);
                }
            }
        }
    }
}

/// The terms of a query count in lower case, each once however often it is
/// given.
pub proof fn terms_count_once(terms: Seq<Seq<char>>)
    ensures
        LatentDb::query_terms(terms).no_duplicates(),
        LatentDb::query_terms(terms).len() <= terms.len(),
        forall|t: Seq<char>| #[trigger]
            LatentDb::query_terms(terms).contains(t) <==> exists|k: int|
                0 <= k < terms.len() && text::lowercase_of(#[trigger] terms[k]) == t,
{
    let words = text::lowered(terms);
    lemma_distinct(words, terms.len() as int);
    assert forall|t: Seq<char>| #[trigger]
        LatentDb::query_terms(terms).contains(t) <==> exists|k: int|
            0 <= k < terms.len() && text::lowercase_of(#[trigger] terms[k]) == t by {
        if LatentDb::query_terms(terms).contains(t) {
            let k = choose|k: int| 0 <= k < words.len() && #[trigger] words[k] == t;
            assert(text::lowercase_of(terms[k]) == t);
        }
        if exists|k: int| 0 <= k < terms.len() && text::lowercase_of(#[trigger] terms[k]) == t {
            let k = choose|k: int|
                0 <= k < terms.len() && text::lowercase_of(#[trigger] terms[k]) == t;
            assert(words[k] == t);
        }
    }
}

/// The ranking of a query by terms.
pub open spec fn by_terms(db: LatentDb, terms: Seq<Seq<char>>) -> Seq<u64> {
    seconds(db.records.lexical_order(LatentDb::query_terms(terms)))
}

/// In a blended search the score of a record comes from its places in the
/// rankings by vector and by terms, neither of which holds a record twice.
pub proof fn blended_scores_add_reciprocal_ranks(
    ar: Arith,
    db: LatentDb,
    terms: Seq<Seq<char>>,
    query: Seq<u32>,
    nprobe: int,
)
    requires
        db.answerable(),
        db.index.centroids@.len() <= u64::MAX,
        db.candidates(ar, query, nprobe).len() <= u64::MAX,
        db.records.live@.len() <= u64::MAX,
        terms.len() <= u64::MAX,
    ensures
        db.vector_order(ar, query, nprobe).no_duplicates(),
        by_terms(db, terms).no_duplicates(),
        adds_reciprocals(
            ar,
            db.vector_order(ar, query, nprobe),
            by_terms(db, terms),
            db.blended_scores(ar, terms, query, nprobe),
        ),
{
    queries::rankings_have_no_repeats(db, ar, query, nprobe);
    terms_count_once(terms);
    more_mentions_come_first(db.records, LatentDb::query_terms(terms));
    accumulated_ranks_add_up(ar, db.vector_order(ar, query, nprobe), by_terms(db, terms));
}

proof fn lemma_first_seen(ids: Seq<u64>, n: int)
    requires
        0 <= n <= ids.len(),
    ensures
        queries::first_seen(ids, n).no_duplicates(),
        forall|id: u64| #[trigger]
            queries::first_seen(ids, n).contains(id) <==> exists|k: int|
                0 <= k < n && #[trigger] ids[k] == id,
    decreases n,
{
    if n > 0 {
        lemma_first_seen(ids, n - 1);
        let before = queries::first_seen(ids, n - 1);
        let all = queries::first_seen(ids, n);
        assert forall|id: u64| #[trigger]
            all.contains(id) <==> exists|k: int| 0 <= k < n && #[trigger] ids[k] == id by {
            if all.contains(id) {
                let i = choose|i: int| 0 <= i < all.len() && all[i] == id;
                if i < before.len() {
                    assert(before[i] == id);
                    assert(before.contains(id));
                    let k = choose|k: int| 0 <= k < n - 1 && #[trigger] ids[k] == id;
                    assert(ids[k] == id);
                } else {
                    assert(ids[n - 1] == id);
                }
            }
            if exists|k: int| 0 <= k < n && #[trigger] ids[k] == id {
                let k = choose|k: int| 0 <= k < n && #[trigger] ids[k] == id;
                if k < n - 1 {
                    assert(ids[k] == id);
                    assert(before.contains(id));
                    let i = choose|i: int| 0 <= i < before.len() && before[i] == id;
                    assert(all[i] == id);
                } else if before.contains(id) {
                    assert(all == before);
                } else {
                    assert(all[before.len() as int] == id);
                }
            }
        }
    }
}

/// A blended search ranks the records of both rankings, each once: no record
/// comes before one with a higher score, and of equal scores the lower id
/// comes first.
pub proof fn blended_rankings_fall(
    ar: Arith,
    db: LatentDb,
    terms: Seq<Seq<char>>,
    query: Seq<u32>,
    nprobe: int,
)
    ensures
        db.blended_order(ar, terms, query, nprobe).no_duplicates(),
        forall|id: u64| #[trigger]
            db.blended_order(ar, terms, query, nprobe).contains(id) <==> db.vector_order(
                ar,
                query,
                nprobe,
            ).contains(id) || by_terms(db, terms).contains(id),
        forall|i: int, j: int|
            #![trigger db.blended_order(ar, terms, query, nprobe)[i], db.blended_order(
                ar,
                terms,
                query,
                nprobe,
            )[j]]
            0 <= i < j < db.blended_order(ar, terms, query, nprobe).len() ==> ({
                let scores = db.blended_scores(ar, terms, query, nprobe);
                let x = db.blended_order(ar, terms, query, nprobe)[i];
                let y = db.blended_order(ar, terms, query, nprobe)[j];
                &&& !order::lt(scores[x], scores[y])
                &&& scores[x] == scores[y] ==> x < y
            }),
{
    let v = db.vector_order(ar, query, nprobe);
    let t = by_terms(db, terms);
    let scores = db.blended_scores(ar, terms, query, nprobe);
    let ids = db.blended_ids(ar, terms, query, nprobe);
    let result = db.blended_order(ar, terms, query, nprobe);
    lemma_first_seen(v + t, (v + t).len() as int);
    let pairs = Seq::new(
        ids.len(),
        |i: int| (order::falling_key(scores[ids[i]]) as u64, ids[i]),
    );
    let ranked = sorting::ranked(pairs);
    sorting::lemma_ranked(pairs);
    assert(pairs.no_duplicates());
    assert forall|i: int|
        #![trigger ranked[i]]
        0 <= i < ranked.len() implies ranked[i].0 == order::falling_key(scores[ranked[i].1])
        && ids.contains(ranked[i].1) && result[i] == ranked[i].1 by {
        assert(ranked.contains(ranked[i]));
        let k = choose|k: int| 0 <= k < pairs.len() && pairs[k] == ranked[i];
        assert(ids[k] == ranked[i].1);
    }
    assert forall|i: int, j: int| 0 <= i < result.len() && 0 <= j < result.len() && i
        != j implies result[i] != result[j] by {
        assert(ranked[i] != ranked[j]);
        assert(ranked[i].0 == order::falling_key(scores[ranked[i].1]));
        assert(ranked[j].0 == order::falling_key(scores[ranked[j].1]));
    }
    assert forall|id: u64| #[trigger] result.contains(id) <==> v.contains(id) || t.contains(id) by {
        if result.contains(id) {
            let i = choose|i: int| 0 <= i < result.len() && result[i] == id;
            assert(ids.contains(ranked[i].1));
            let k = choose|k: int| 0 <= k < (v + t).len() && #[trigger] (v + t)[k] == id;
            if k < v.len() {
                assert(v[k] == id);
            } else {
                assert(t[k - v.len()] == id);
            }
        }
        if v.contains(id) || t.contains(id) {
            if v.contains(id) {
                let k = choose|k: int| 0 <= k < v.len() && v[k] == id;
                assert((v + t)[k] == id);
            } else {
                let k = choose|k: int| 0 <= k < t.len() && t[k] == id;
                assert((v + t)[v.len() + k] == id);
            }
            assert(ids.contains(id));
            let m = choose|m: int| 0 <= m < ids.len() && ids[m] == id;
            assert(pairs.contains(pairs[m]));
            assert(ranked.contains(pairs[m]));
            let i = choose|i: int| 0 <= i < ranked.len() && ranked[i] == pairs[m];
            assert(result[i] == id);
        }
    }
    assert forall|i: int, j: int|
        #![trigger result[i], result[j]]
        0 <= i < j < result.len() implies !order::lt(scores[result[i]], scores[result[j]]) && (
    scores[result[i]] == scores[result[j]] ==> result[i] < result[j]) by {
        assert(sorting::pair_order()(ranked[i], ranked[j]));
        let a = scores[result[i]];
        let b = scores[result[j]];
        assert(ranked[i].0 == order::falling_key(a) && ranked[j].0 == order::falling_key(b));
        if order::lt(a, b) {
            order::keys_follow_order(a, b);
        }
        assert(result[i] != result[j]);
    }
}

/// The hits of a search are different records, with their own scores, from
/// among those that the search looks at. There are as many as asked for, or
/// all. No hit comes before one with a higher score, and no record that was
/// looked at and left out has a higher score than a hit.
pub proof fn hits_have_the_highest_scores(
    ar: Arith,
    db: LatentDb,
    query: Seq<u32>,
    k: int,
    nprobe: int,
    hits: Seq<SearchHit>,
)
    requires
        db.answerable(),
        db.index.centroids@.len() <= u64::MAX,
        db.candidates(ar, query, nprobe).len() <= u64::MAX,
        0 <= k,
        db.answers(ar, query, k, nprobe, hits),
    ensures
        hits.len() == if k < db.candidates(ar, query, nprobe).len() {
            k
        } else {
            db.candidates(ar, query, nprobe).len() as int
        },
        forall|i: int|
            0 <= i < hits.len() ==> db.candidates(ar, query, nprobe).contains(
                (#[trigger] hits[i]).id,
            ) && hits[i].score == db.score_of(ar, query, hits[i].id) && hits[i].metadata@
                == db.contents()[hits[i].id].text,
        forall|i: int, j: int|
            0 <= i < j < hits.len() ==> (#[trigger] hits[i]).id != (#[trigger] hits[j]).id
                && !order::lt(hits[i].score, hits[j].score),
        forall|i: int, id: u64|
            #![trigger hits[i], db.score_of(ar, query, id)]
            0 <= i < hits.len() && db.candidates(ar, query, nprobe).contains(id) && (forall|j: int|
                0 <= j < hits.len() ==> (#[trigger] hits[j]).id != id) ==> !order::lt(
                hits[i].score,
                db.score_of(ar, query, id),
            ),
{
    let ids = db.candidates(ar, query, nprobe);
    let result = db.vector_order(ar, query, nprobe);
    queries::rankings_have_no_repeats(db, ar, query, nprobe);
    let pairs = db.scored(ar, query, ids);
    let ranked = sorting::ranked(pairs);
    sorting::lemma_ranked(pairs);
    assert forall|i: int| 0 <= i < result.len() implies ids.contains(#[trigger] result[i]) by {
        assert(ranked.contains(ranked[i]));
        let m = choose|m: int| 0 <= m < pairs.len() && pairs[m] == ranked[i];
        assert(pairs[m].1 == m);
        assert(ids[m] == result[i]);
    }
    assert forall|i: int| 0 <= i < hits.len() implies ids.contains((#[trigger] hits[i]).id)
        && hits[i].id == result[i] && hits[i].score == db.score_of(ar, query, result[i]) by {
        assert(ids.contains(result[i]));
    }
    assert forall|i: int, j: int| 0 <= i < j < hits.len() implies (#[trigger] hits[i]).id != (
    #[trigger] hits[j]).id && !order::lt(hits[i].score, hits[j].score) by {
        assert(result[i] != result[j]);
        queries::rankings_fall(db, ar, query, nprobe, i, j);
    }
    assert forall|i: int, id: u64|
        #![trigger hits[i], db.score_of(ar, query, id)]
        0 <= i < hits.len() && ids.contains(id) && (forall|j: int|
            0 <= j < hits.len() ==> (#[trigger] hits[j]).id != id) implies !order::lt(
        hits[i].score,
        db.score_of(ar, query, id),
    ) by {
        let m = choose|m: int| 0 <= m < ids.len() && ids[m] == id;
        assert(pairs[m].1 == m);
        assert(pairs.contains(pairs[m]));
        assert(ranked.contains(pairs[m]));
        let j = choose|j: int| 0 <= j < ranked.len() && ranked[j] == pairs[m];
        assert(result[j] == id);
        if j < hits.len() {
            assert(hits[j].id == id);
        }
        assert(hits[i].id == result[i]);
        queries::rankings_fall(db, ar, query, nprobe, i, j);
    }
}

} // verus!
