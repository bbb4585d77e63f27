//! Where a search looks.

use vstd::prelude::*;

use super::euclid_squared;
use super::measures;
use crate::arith::Arith;
use crate::index;
use crate::index::CentroidIndex;
use crate::order;
use crate::sorting;
use crate::vectors;
use crate::vectors::rows;

verus! {

/// How far the centroid `c` is from `v`, squared.
pub open spec fn remoteness(ar: Arith, index: CentroidIndex, v: Seq<u32>, c: int) -> u32 {
    euclid_squared(ar, index.centroids@[c]@, v)
}

/// How many buckets a search is to look into: `nprobe` of them, but at least
/// one and at most all.
pub open spec fn breadth(index: CentroidIndex, nprobe: int) -> int {
    let n = index.centroids@.len() as int;
    if nprobe > n {
        n
    } else if nprobe < 1 {
        1
    } else {
        nprobe
    }
}

/// `probed` are `breadth` of the centroids, such that no other one is nearer
/// to `v` than one of them.
pub open spec fn nearest_few(
    ar: Arith,
    index: CentroidIndex,
    v: Seq<u32>,
    nprobe: int,
    probed: Set<int>,
) -> bool {
    &&& probed.finite()
    &&& probed.len() == breadth(index, nprobe)
    &&& forall|c: int| #[trigger] probed.contains(c) ==> 0 <= c < index.centroids@.len()
    &&& forall|c: int, e: int|
        #![trigger probed.contains(c), remoteness(ar, index, v, e)]
        probed.contains(c) && 0 <= e < index.centroids@.len() && !probed.contains(e)
            ==> !order::lt(remoteness(ar, index, v, e), remoteness(ar, index, v, c))
}

/// The first `n` centroids in the order of probing.
spec fn heads(order: Seq<(u64, u64)>, n: int) -> Set<int>
    decreases n,
{
    if n <= 0 {
        Set::empty()
    } else {
        heads(order, n - 1).insert(order[n - 1].1 as int)
    }
}

proof fn lemma_heads(order: Seq<(u64, u64)>, n: int)
    requires
        0 <= n <= order.len(),
        forall|i: int, j: int|
            0 <= i < order.len() && 0 <= j < order.len() && i != j ==> order[i].1 != order[j].1,
    ensures
        heads(order, n).finite(),
        heads(order, n).len() == n,
        forall|c: int| #[trigger]
            heads(order, n).contains(c) <==> exists|i: int|
                0 <= i < n && (#[trigger] order[i]).1 == c,
    decreases n,
{
    if n > 0 {
        lemma_heads(order, n - 1);
        let before = heads(order, n - 1);
        assert(!before.contains(order[n - 1].1 as int)) by {
            if before.contains(order[n - 1].1 as int) {
                let i = choose|i: int|
                    0 <= i < n - 1 && (#[trigger] order[i]).1 == order[n - 1].1 as int;
                assert(order[i].1 != order[n - 1].1);
            }
        }
        assert forall|c: int| #[trigger]
            heads(order, n).contains(c) <==> exists|i: int|
                0 <= i < n && (#[trigger] order[i]).1 == c by {
            if heads(order, n).contains(c) {
                if before.contains(c) {
                    let i = choose|i: int| 0 <= i < n - 1 && (#[trigger] order[i]).1 == c;
                    assert(order[i].1 == c);
                } else {
                    assert(order[n - 1].1 == c);
                }
            }
            if exists|i: int| 0 <= i < n && (#[trigger] order[i]).1 == c {
                let i = choose|i: int| 0 <= i < n && (#[trigger] order[i]).1 == c;
                if i < n - 1 {
                    assert(order[i].1 == c);
                    assert(before.contains(c));
                }
            }
        }
    }
}

/// A search looks into the buckets of the nearest centroids, as many as it is
/// told, and finds all records in them and no others.
pub proof fn the_nearest_buckets_are_searched(
    ar: Arith,
    index: CentroidIndex,
    v: Seq<u32>,
    nprobe: int,
) -> (probed: Set<int>)
    requires
        index.wf(),
        index.tight(),
        index.centroids@.len() <= u64::MAX,
    ensures
        nearest_few(ar, index, v, nprobe, probed),
        forall|id: u64| #[trigger]
            index.candidate_ids(ar, v, nprobe).contains(id) <==> index.assignment@.contains_key(id)
                && probed.contains(index.assignment@[id] as int),
        index.candidate_ids(ar, v, nprobe).no_duplicates(),
{
    let d = index::distances_to(ar, rows(index.centroids@), v);
    let n = index.centroids@.len() as int;
    let m = breadth(index, nprobe);
    let all = index::keyed(d);
    let order = index::probing_order(d);
    index::candidates_are_distinct(index, ar, v, nprobe);
    sorting::lemma_ranked(all);
    assert forall|i: int, j: int| 0 <= i < all.len() && 0 <= j < all.len() && i != j implies all[i]
        != all[j] by {
        assert(all[i].1 == i && all[j].1 == j);
    }
    assert(all.no_duplicates());
    assert forall|i: int| #![trigger order[i]] 0 <= i < order.len() implies 0 <= order[i].1 < n
        && order[i] == all[order[i].1 as int] by {
        assert(order.contains(order[i]));
        let k = choose|k: int| 0 <= k < all.len() && all[k] == order[i];
        assert(all[k].1 == k);
    }
    assert forall|i: int, j: int|
        0 <= i < order.len() && 0 <= j < order.len() && i != j implies order[i].1 != order[j].1 by {
        assert(order[i] != order[j]);
        assert(order[i] == all[order[i].1 as int]);
        assert(order[j] == all[order[j].1 as int]);
    }
    assert(m == index::probes(n, nprobe));
    let probed = heads(order, m);
    lemma_heads(order, m);
    assert forall|c: int| #[trigger] probed.contains(c) implies 0 <= c < n by {
        let i = choose|i: int| 0 <= i < m && (#[trigger] order[i]).1 == c;
        assert(0 <= order[i].1 < n);
    }
    assert forall|c: int, e: int|
        #![trigger probed.contains(c), remoteness(ar, index, v, e)]
        probed.contains(c) && 0 <= e < n && !probed.contains(e) implies !order::lt(
        remoteness(ar, index, v, e),
        remoteness(ar, index, v, c),
    ) by {
        let i = choose|i: int| 0 <= i < m && (#[trigger] order[i]).1 == c;
        assert(order.contains(all[e]));
        let j = choose|j: int| 0 <= j < order.len() && order[j] == all[e];
        assert(order[j].1 == e);
        assert(j >= m);
        assert(sorting::pair_order()(order[i], order[j]));
        assert(order[i] == all[c]);
        measures::distances_are_euclidean(ar, index.centroids@[c]@, v);
        measures::distances_are_euclidean(ar, index.centroids@[e]@, v);
        assert(d[c] == remoteness(ar, index, v, c));
        assert(d[e] == remoteness(ar, index, v, e));
        if order::lt(d[e], d[c]) {
            order::keys_follow_order(d[e], d[c]);
        }
    }
    index::lemma_gathered_distinct(index, order, m);
    assert forall|id: u64| #[trigger]
        index.candidate_ids(ar, v, nprobe).contains(id) <==> index.assignment@.contains_key(id)
            && probed.contains(index.assignment@[id] as int) by {
        if index.assignment@.contains_key(id) && probed.contains(index.assignment@[id] as int) {
            let c = index.assignment@[id] as int;
            let i = choose|i: int| 0 <= i < m && (#[trigger] order[i]).1 == c;
            assert(index.bucket_lists()[c].contains(id));
            index::lemma_gathered(index.bucket_lists(), order, m, i, id);
        }
        if index.candidate_ids(ar, v, nprobe).contains(id) {
            let i = choose|i: int| 0 <= i < m && (#[trigger] order[i]).1 == index.assignment@[id];
            assert(order[i].1 == index.assignment@[id] as int);
        }
    }
    probed
}

/// If a search finds the records of one centroid and not those of another,
/// the other is not nearer.
pub proof fn what_is_passed_over_is_not_nearer(
    ar: Arith,
    index: CentroidIndex,
    v: Seq<u32>,
    nprobe: int,
    found: u64,
    missed: u64,
)
    requires
        index.wf(),
        index.tight(),
        index.centroids@.len() <= u64::MAX,
        index.assignment@.contains_key(found),
        index.assignment@.contains_key(missed),
        index.candidate_ids(ar, v, nprobe).contains(found),
        !index.candidate_ids(ar, v, nprobe).contains(missed),
    ensures
        !order::lt(
            remoteness(ar, index, v, index.assignment@[missed] as int),
            remoteness(ar, index, v, index.assignment@[found] as int),
        ),
{
    let probed = the_nearest_buckets_are_searched(ar, index, v, nprobe);
    assert(probed.contains(index.assignment@[found] as int));
    assert(!probed.contains(index.assignment@[missed] as int));
}

/// A record whose centroid is nearer to the query than every other one is
/// found, however few buckets are searched.
pub proof fn the_nearest_bucket_is_never_missed(
    ar: Arith,
    index: CentroidIndex,
    v: Seq<u32>,
    nprobe: int,
    id: u64,
)
    requires
        index.wf(),
        index.tight(),
        index.centroids@.len() <= u64::MAX,
        index.assignment@.contains_key(id),
        forall|e: int|
            0 <= e < index.centroids@.len() && e != index.assignment@[id] ==> order::lt(
                remoteness(ar, index, v, index.assignment@[id] as int),
                #[trigger] remoteness(ar, index, v, e),
            ),
    ensures
        index.candidate_ids(ar, v, nprobe).contains(id),
{
    let probed = the_nearest_buckets_are_searched(ar, index, v, nprobe);
    let c = index.assignment@[id] as int;
    if !probed.contains(c) {
        assert(probed.len() >= 1);
        let e = probed.choose();
        assert(probed.contains(e));
        assert(order::lt(remoteness(ar, index, v, c), remoteness(ar, index, v, e)));
    }
}

/// Looking into more buckets finds no fewer records.
pub proof fn wider_searches_find_more(
    ar: Arith,
    index: CentroidIndex,
    v: Seq<u32>,
    few: int,
    many: int,
)
    requires
        index.wf(),
        few <= many,
    ensures
        index.candidate_ids(ar, v, few).is_prefix_of(index.candidate_ids(ar, v, many)),
{
    let d = index::distances_to(ar, rows(index.centroids@), v);
    let n = index.centroids@.len() as int;
    lemma_gathered_further(
        index.bucket_lists(),
        index::probing_order(d),
        index::probes(n, few),
        index::probes(n, many),
    );
}

proof fn lemma_gathered_further(buckets: Seq<Seq<u64>>, order: Seq<(u64, u64)>, m: int, n: int)
    requires
        0 <= m <= n,
    ensures
        index::gathered(buckets, order, m).is_prefix_of(index::gathered(buckets, order, n)),
    decreases n,
{
    if m < n {
        lemma_gathered_further(buckets, order, m, n - 1);
    }
}

/// The bucket of a new record is that of a centroid that no other one is
/// nearer than, the first of those that are equally near, if any is at a
/// distance below the largest number.
pub proof fn records_go_to_the_nearest_centroid(
    ar: Arith,
    index: CentroidIndex,
    v: Seq<u32>,
    e: int,
)
    requires
        index.wf(),
        0 <= e < index.centroids@.len(),
        order::lt(remoteness(ar, index, v, e), 0x7f7f_ffff),
    ensures
        0 <= index.nearest(ar, v) < index.centroids@.len(),
        order::le(
            remoteness(ar, index, v, index.nearest(ar, v)),
            remoteness(ar, index, v, e),
        ),
        e < index.nearest(ar, v) ==> order::lt(
            remoteness(ar, index, v, index.nearest(ar, v)),
            remoteness(ar, index, v, e),
        ),
{
    let d = index::distances_to(ar, rows(index.centroids@), v);
    measures::distances_are_euclidean(ar, index.centroids@[e]@, v);
    assert(d[e] == remoteness(ar, index, v, e));
    vectors::least_is_least(d, d.len() as int, e);
    let c = index.nearest(ar, v);
    measures::distances_are_euclidean(ar, index.centroids@[c]@, v);
    assert(d[c] == remoteness(ar, index, v, c));
}

} // verus!
