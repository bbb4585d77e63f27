//! The approximate index: records are kept in the bucket of their nearest
//! centroid, and a search looks only into the buckets near the query.

use std::collections::HashMap;
use vstd::prelude::*;

use crate::arith;
use crate::arith::Arith;
use crate::arith::Op;
use crate::clustering;
use crate::order;
use crate::projector::Projector;
use crate::sorting;
use crate::vectors;
use crate::vectors::rows;

verus! {

/// The contents of a list of buckets.
pub open spec fn lists(v: Seq<Vec<u64>>) -> Seq<Seq<u64>> {
    Seq::new(v.len(), |i: int| v[i]@)
}

/// The squared distances of each of `centers` from `v`.
pub open spec fn distances_to(ar: Arith, centers: Seq<Seq<u32>>, v: Seq<u32>) -> Seq<u32> {
    Seq::new(centers.len(), |c: int| vectors::squared_distance(ar, centers[c], v))
}

/// The first `n` of `s` without `id`.
pub open spec fn without(s: Seq<u64>, id: u64, n: int) -> Seq<u64>
    decreases n,
{
    if n <= 0 {
        Seq::empty()
    } else if s[n - 1] == id {
        without(s, id, n - 1)
    } else {
        without(s, id, n - 1).push(s[n - 1])
    }
}

/// `s` without the records of `gone`.
pub open spec fn dropped(s: Seq<u64>, gone: Set<u64>) -> Seq<u64>
    decreases s.len(),
{
    if s.len() == 0 {
        s
    } else if gone.contains(s.last()) {
        dropped(s.drop_last(), gone)
    } else {
        dropped(s.drop_last(), gone).push(s.last())
    }
}

/// The buckets without the records of `gone`.
pub open spec fn thinned(buckets: Seq<Seq<u64>>, gone: Set<u64>) -> Seq<Seq<u64>> {
    Seq::new(buckets.len(), |c: int| dropped(buckets[c], gone))
}

/// Dropping in two steps is dropping at once.
pub(crate) proof fn lemma_dropped_twice(s: Seq<u64>, g: Set<u64>, h: Set<u64>)
    ensures
        dropped(dropped(s, g), h) == dropped(s, g.union(h)),
    decreases s.len(),
{
    if s.len() > 0 {
        let t = s.drop_last();
        lemma_dropped_twice(t, g, h);
        if !g.contains(s.last()) {
            assert(dropped(s, g).drop_last() =~= dropped(t, g));
        }
    }
}

/// Dropping what is not there changes nothing.
pub(crate) proof fn lemma_dropped_none(s: Seq<u64>, g: Set<u64>)
    requires
        forall|i: int| 0 <= i < s.len() ==> !g.contains(#[trigger] s[i]),
    ensures
        dropped(s, g) == s,
    decreases s.len(),
{
    if s.len() > 0 {
        let t = s.drop_last();
        assert forall|i: int| 0 <= i < t.len() implies !g.contains(#[trigger] t[i]) by {
            assert(t[i] == s[i]);
        }
        lemma_dropped_none(t, g);
        assert(t.push(s.last()) =~= s);
    }
}

proof fn lemma_one_dropped(s: Seq<u64>, id: u64, n: int)
    requires
        0 <= n <= s.len(),
    ensures
        without(s, id, n) == dropped(s.take(n), set![id]),
    decreases n,
{
    if n > 0 {
        lemma_one_dropped(s, id, n - 1);
        assert(s.take(n).drop_last() =~= s.take(n - 1));
    }
}

/// Taking a record out of its bucket drops it from all buckets.
pub(crate) proof fn lemma_thinned(index: CentroidIndex, after: Seq<Seq<u64>>, id: u64)
    requires
        index.wf(),
        index.tight(),
        !index.assignment@.contains_key(id) ==> after == index.bucket_lists(),
        index.assignment@.contains_key(id) ==> ({
            let c = index.assignment@[id] as int;
            after == index.bucket_lists().update(
                c,
                without(
                    index.bucket_lists()[c],
                    id,
                    index.bucket_lists()[c].len() as int,
                ),
            )
        }),
    ensures
        after == thinned(index.bucket_lists(), set![id]),
{
    let before = index.bucket_lists();
    assert forall|c: int| 0 <= c < before.len() implies after[c] == dropped(
        #[trigger] before[c],
        set![id],
    ) by {
        if index.assignment@.contains_key(id) && index.assignment@[id] == c {
            lemma_one_dropped(before[c], id, before[c].len() as int);
            assert(before[c].take(before[c].len() as int) =~= before[c]);
        } else {
            assert forall|i: int| 0 <= i < before[c].len() implies !set![id].contains(
                #[trigger] before[c][i],
            ) by {
                assert(before[c].contains(before[c][i]));
            }
            lemma_dropped_none(before[c], set![id]);
        }
    }
    assert(after =~= thinned(before, set![id]));
}

/// The centroids under their distances, in order of their numbers.
pub open spec fn keyed(d: Seq<u32>) -> Seq<(u64, u64)> {
    Seq::new(d.len(), |c: int| (order::rising_key(d[c]) as u64, c as u64))
}

/// The centroids from the nearest to the farthest; of equally near ones the
/// lower number comes first.
pub open spec fn probing_order(d: Seq<u32>) -> Seq<(u64, u64)> {
    sorting::ranked(keyed(d))
}

/// The contents of the buckets of the first `n` centroids in `order`.
pub open spec fn gathered(buckets: Seq<Seq<u64>>, order: Seq<(u64, u64)>, n: int) -> Seq<u64>
    decreases n,
{
    if n <= 0 {
        Seq::empty()
    } else {
        gathered(buckets, order, n - 1) + buckets[order[n - 1].1 as int]
    }
}

/// The number of buckets to look into: `nprobe`, at least one, and no more
/// than there are.
pub open spec fn probes(n: int, nprobe: int) -> int {
    let wanted = if nprobe >= 1 {
        nprobe
    } else {
        1
    };
    if wanted <= n {
        wanted
    } else {
        n
    }
}

/// Centroids, the records in the bucket of each, and the centroid of each
/// record.
pub struct CentroidIndex {
    pub centroids: Vec<Vec<u32>>,
    pub buckets: Vec<Vec<u64>>,
    pub assignment: HashMap<u64, usize>,
}

impl CentroidIndex {
    /// The contents of the buckets.
    pub open spec fn bucket_lists(&self) -> Seq<Seq<u64>> {
        lists(self.buckets@)
    }

    /// Every centroid has a bucket, and a record is in the bucket of its
    /// centroid.
    pub open spec fn wf(&self) -> bool {
        &&& self.centroids@.len() > 0
        &&& self.buckets@.len() == self.centroids@.len()
        &&& forall|id: u64| #[trigger]
            self.assignment@.contains_key(id) ==> self.assignment@[id] < self.buckets@.len()
                && self.bucket_lists()[self.assignment@[id] as int].contains(id)
    }

    /// What is in a bucket is assigned to it, once.
    pub open spec fn tight(&self) -> bool {
        &&& forall|c: int, id: u64|
            0 <= c < self.buckets@.len() && #[trigger] self.bucket_lists()[c].contains(id)
                ==> self.assignment@.contains_key(id) && self.assignment@[id] == c
        &&& forall|c: int|
            0 <= c < self.buckets@.len() ==> (#[trigger] self.bucket_lists()[c]).no_duplicates()
    }

    /// The centroid nearest to `v`.
    pub open spec fn nearest(&self, ar: Arith, v: Seq<u32>) -> int {
        vectors::least(distances_to(ar, rows(self.centroids@), v))
    }

    /// The records that a search near `v` looks at.
    pub open spec fn candidate_ids(&self, ar: Arith, v: Seq<u32>, nprobe: int) -> Seq<u64> {
        gathered(
            self.bucket_lists(),
            probing_order(distances_to(ar, rows(self.centroids@), v)),
            probes(self.centroids@.len() as int, nprobe),
        )
    }

    /// An empty index whose centroids come from clustering.
    pub fn train<F: Fn(Op, u32, u32, u32) -> u32>(
        fpu: &F,
        projected_training: &Vec<Vec<u32>>,
        n_centroids: usize,
        iterations: usize,
        seed: u64,
    ) -> (r: Self)
        requires
            arith::is_unit(*fpu),
            clustering::usable(rows(projected_training@)),
        ensures
            r.wf(),
            r.tight(),
            r.assignment@ == Map::<u64, usize>::empty(),
            forall|c: int|
                0 <= c < r.buckets@.len() ==> #[trigger] r.bucket_lists()[c] == Seq::<u64>::empty(),
            rows(r.centroids@) == clustering::centroids_of(
                arith::arith(*fpu),
                rows(projected_training@),
                n_centroids as int,
                iterations as int,
                seed,
            ),
    {
        let centroids: Vec<Vec<u32>> = clustering::kmeans(
            fpu,
            projected_training,
            n_centroids,
            iterations,
            seed,
        );
        let mut buckets: Vec<Vec<u64>> = Vec::new();
        while buckets.len() < centroids.len()
            invariant
                buckets@.len() <= centroids@.len(),
                forall|c: int| 0 <= c < buckets@.len() ==> (#[trigger] buckets@[c])@.len() == 0,
            decreases centroids@.len() - buckets@.len(),
        {
            buckets.push(Vec::new());
        }
        let r: CentroidIndex = CentroidIndex { centroids, buckets, assignment: HashMap::new() };
        proof {
            assert forall|c: int| 0 <= c < r.buckets@.len() implies #[trigger] r.bucket_lists()[c]
                == Seq::<u64>::empty() by {
                assert(r.buckets@[c]@.len() == 0);
                assert(r.bucket_lists()[c] =~= Seq::<u64>::empty());
            }
        }
        r
    }

    fn measure<F: Fn(Op, u32, u32, u32) -> u32>(&self, fpu: &F, v: &[u32]) -> (r: Vec<u32>)
        requires
            arith::is_unit(*fpu),
        ensures
            r@ == distances_to(arith::arith(*fpu), rows(self.centroids@), v@),
    {
        let ghost target = distances_to(arith::arith(*fpu), rows(self.centroids@), v@);
        let mut r: Vec<u32> = Vec::new();
        let mut c: usize = 0;
        while c < self.centroids.len()
            invariant
                c <= self.centroids@.len(),
                arith::is_unit(*fpu),
                target == distances_to(arith::arith(*fpu), rows(self.centroids@), v@),
                r@.len() == c,
                forall|i: int| 0 <= i < c ==> #[trigger] r@[i] == target[i],
            decreases self.centroids@.len() - c,
        {
            assert(rows(self.centroids@)[c as int] == self.centroids@[c as int]@);
            r.push(vectors::sq_dist(fpu, &self.centroids[c], v));
            c += 1;
        }
        assert(r@ =~= target);
        r
    }

    fn nearest_centroid<F: Fn(Op, u32, u32, u32) -> u32>(&self, fpu: &F, projected: &[u32]) -> (r:
        usize)
        requires
            arith::is_unit(*fpu),
            self.centroids@.len() > 0,
        ensures
            r == self.nearest(arith::arith(*fpu), projected@),
            r < self.centroids@.len(),
    {
        let d: Vec<u32> = self.measure(fpu, projected);
        vectors::find_least(&d)
    }

    /// Puts a record into the bucket of its nearest centroid.
    pub fn insert<F: Fn(Op, u32, u32, u32) -> u32>(&mut self, fpu: &F, id: u64, projected: &[u32])
        requires
            arith::is_unit(*fpu),
            old(self).wf(),
        ensures
            final(self).wf(),
            old(self).tight() && !old(self).assignment@.contains_key(id) ==> final(self).tight(),
            final(self).centroids@ == old(self).centroids@,
            ({
                let c = old(self).nearest(arith::arith(*fpu), projected@);
                &&& 0 <= c < old(self).buckets@.len()
                &&& final(self).assignment@ == old(self).assignment@.insert(id, c as usize)
                &&& final(self).bucket_lists() == old(self).bucket_lists().update(
                    c,
                    old(self).bucket_lists()[c].push(id),
                )
            }),
    {
        broadcast use vstd::std_specs::hash::group_hash_axioms;

        let c: usize = self.nearest_centroid(fpu, projected);
        let ghost before = self.bucket_lists();
        let ghost known = self.assignment@;
        self.buckets[c].push(id);
        self.assignment.insert(id, c);
        proof {
            let after = self.bucket_lists();
            assert(after =~= before.update(c as int, before[c as int].push(id)));
            assert(after[c as int][before[c as int].len() as int] == id);
            assert forall|x: u64| #[trigger] self.assignment@.contains_key(x) implies self.assignment@[x]
                < self.buckets@.len() && after[self.assignment@[x] as int].contains(x) by {
                if x != id {
                    assert(known.contains_key(x));
                    let d = known[x] as int;
                    assert(before[d].contains(x));
                    let k = choose|k: int| 0 <= k < before[d].len() && before[d][k] == x;
                    assert(after[d][k] == x);
                }
            }
            if old(self).tight() && !known.contains_key(id) {
                assert forall|d: int, x: u64|
                    0 <= d < self.buckets@.len() && #[trigger] after[d].contains(
                        x,
                    ) implies self.assignment@.contains_key(x) && self.assignment@[x] == d by {
                    let k = choose|k: int| 0 <= k < after[d].len() && after[d][k] == x;
                    if d == c && k == before[c as int].len() {
                    } else {
                        assert(before[d][k] == x);
                        assert(before[d].contains(x));
                        assert(known.contains_key(x));
                    }
                }
                assert forall|d: int| 0 <= d < self.buckets@.len() implies (
                #[trigger] after[d]).no_duplicates() by {
                    assert(before[d].no_duplicates());
                    if d == c {
                        assert(!before[d].contains(id));
                        assert forall|i: int, j: int|
                            0 <= i < after[d].len() && 0 <= j < after[d].len() && i
                                != j implies after[d][i] != after[d][j] by {
                            if i == before[d].len() {
                                assert(before[d][j] != id);
                            } else if j == before[d].len() {
                                assert(before[d][i] != id);
                            } else {
                                assert(before[d][i] != before[d][j]);
                            }
                        }
                    }
                }
            }
        }
    }

    /// Takes a record out of its bucket; nothing changes if it has none.
    pub fn remove(&mut self, id: u64)
        requires
            old(self).wf(),
        ensures
            final(self).wf(),
            old(self).tight() ==> final(self).tight(),
            final(self).centroids@ == old(self).centroids@,
            final(self).assignment@ == old(self).assignment@.remove(id),
            !old(self).assignment@.contains_key(id) ==> final(self).bucket_lists()
                == old(self).bucket_lists(),
            old(self).assignment@.contains_key(id) ==> ({
                let c = old(self).assignment@[id] as int;
                final(self).bucket_lists() == old(self).bucket_lists().update(
                    c,
                    without(
                        old(self).bucket_lists()[c],
                        id,
                        old(self).bucket_lists()[c].len() as int,
                    ),
                )
            }),
    {
        broadcast use vstd::std_specs::hash::group_hash_axioms;

        let found: Option<usize> = match self.assignment.get(&id) {
            Some(c) => Some(*c),
            None => None,
        };
        let ghost before = self.bucket_lists();
        let ghost known = self.assignment@;
        match found {
            None => {
                proof {
                    assert(known.remove(id) =~= known);
                }
            },
            Some(c) => {
                self.assignment.remove(&id);
                let kept: Vec<u64> = keep_others(&self.buckets[c], id);
                self.buckets.set(c, kept);
                proof {
                    let after = self.bucket_lists();
                    let b = before[c as int];
                    assert(kept@ == without(b, id, b.len() as int));
                    assert(after =~= before.update(c as int, kept@));
                    lemma_without(b, id, b.len() as int);
                    assert forall|x: u64| #[trigger]
                        self.assignment@.contains_key(x) implies self.assignment@[x]
                        < self.buckets@.len() && after[self.assignment@[x] as int].contains(x) by {
                        assert(known.contains_key(x));
                        assert(before[known[x] as int].contains(x));
                    }
                    if old(self).tight() {
                        assert forall|d: int, x: u64|
                            0 <= d < self.buckets@.len() && #[trigger] after[d].contains(
                                x,
                            ) implies self.assignment@.contains_key(x) && self.assignment@[x]
                            == d by {
                            assert(before[d].contains(x));
                            assert(known.contains_key(x) && known[x] == d);
                            if x == id {
                                assert(d == c);
                                assert(!kept@.contains(id));
                            }
                        }
                        assert forall|d: int| 0 <= d < self.buckets@.len() implies (
                        #[trigger] after[d]).no_duplicates() by {
                            assert(before[d].no_duplicates());
                        }
                    }
                }
            },
        }
    }

    /// The records in the buckets of the `nprobe` centroids nearest to the
    /// query, at least one.
    pub fn candidates<F: Fn(Op, u32, u32, u32) -> u32>(
        &self,
        fpu: &F,
        projected_query: &[u32],
        nprobe: usize,
    ) -> (r: Vec<u64>)
        requires
            arith::is_unit(*fpu),
            self.wf(),
        ensures
            r@ == self.candidate_ids(arith::arith(*fpu), projected_query@, nprobe as int),
    {
        let d: Vec<u32> = self.measure(fpu, projected_query);
        let ghost buckets = self.bucket_lists();
        let mut pairs: Vec<(u64, u64)> = Vec::new();
        let mut c: usize = 0;
        while c < d.len()
            invariant
                c <= d@.len(),
                pairs@.len() == c,
                forall|i: int| 0 <= i < c ==> #[trigger] pairs@[i] == keyed(d@)[i],
            decreases d@.len() - c,
        {
            pairs.push((order::key_rising(d[c]), c as u64));
            c += 1;
        }
        assert(pairs@ =~= keyed(d@));
        let ranked: Vec<(u64, u64)> = sorting::rank_pairs(pairs);
        let wanted: usize = if nprobe >= 1 {
            nprobe
        } else {
            1
        };
        proof {
            sorting::lemma_ranked(keyed(d@));
        }
        let mut out: Vec<u64> = Vec::new();
        let mut i: usize = 0;
        while i < wanted && i < ranked.len()
            invariant
                i <= wanted,
                i <= ranked@.len(),
                self.wf(),
                buckets == self.bucket_lists(),
                d@.len() == self.centroids@.len(),
                ranked@ == probing_order(d@),
                ranked@.len() == d@.len(),
                forall|x: (u64, u64)| #[trigger] ranked@.contains(x) <==> keyed(d@).contains(x),
                out@ == gathered(buckets, ranked@, i as int),
            decreases ranked@.len() - i,
        {
            proof {
                assert(ranked@.contains(ranked@[i as int]));
                let k = choose|k: int| 0 <= k < keyed(d@).len() && keyed(d@)[k] == ranked@[i as int];
                assert(keyed(d@).contains(ranked@[i as int]));
                assert(keyed(d@)[k].1 == k);
            }
            let at: usize = ranked[i].1 as usize;
            let ghost before = out@;
            assert(buckets[at as int] == self.buckets@[at as int]@);
            out.extend_from_slice(self.buckets[at].as_slice());
            assert(out@ =~= before + buckets[at as int]);
            i += 1;
        }
        out
    }

    /// The number of centroids.
    pub fn n_centroids(&self) -> (r: usize)
        ensures
            r == self.centroids@.len(),
    {
        self.centroids.len()
    }

    /// The centroid of a record, if it has one.
    pub fn assigned_centroid(&self, id: u64) -> (r: Option<usize>)
        ensures
            r == (if self.assignment@.contains_key(id) {
                Some(self.assignment@[id])
            } else {
                None
            }),
    {
        broadcast use vstd::std_specs::hash::group_hash_axioms;

        match self.assignment.get(&id) {
            Some(c) => Some(*c),
            None => None,
        }
    }

    /// The centroid with the number `idx`, if there is one.
    pub fn centroid_vector(&self, idx: usize) -> (r: Option<&Vec<u32>>)
        ensures
            r is Some <==> idx < self.centroids@.len(),
            r is Some ==> r->0@ == self.centroids@[idx as int]@,
    {
        if idx < self.centroids.len() {
            Some(&self.centroids[idx])
        } else {
            None
        }
    }
}

fn keep_others(v: &Vec<u64>, id: u64) -> (r: Vec<u64>)
    ensures
        r@ == without(v@, id, v@.len() as int),
{
    let mut r: Vec<u64> = Vec::new();
    let mut i: usize = 0;
    while i < v.len()
        invariant
            i <= v@.len(),
            r@ == without(v@, id, i as int),
        decreases v@.len() - i,
    {
        if v[i] != id {
            r.push(v[i]);
        }
        i += 1;
    }
    r
}

/// What taking `id` out leaves.
pub proof fn lemma_without(s: Seq<u64>, id: u64, n: int)
    requires
        0 <= n <= s.len(),
    ensures
        !without(s, id, n).contains(id),
        forall|x: u64|
            x != id ==> (#[trigger] without(s, id, n).contains(x) <==> s.take(n).contains(x)),
        n == s.len() ==> forall|x: u64|
            x != id ==> (#[trigger] without(s, id, n).contains(x) <==> s.contains(x)),
        s.no_duplicates() ==> without(s, id, n).no_duplicates(),
    decreases n,
{
    if n > 0 {
        lemma_without(s, id, n - 1);
        let before = without(s, id, n - 1);
        let after = without(s, id, n);
        let x = s[n - 1];
        let head = s.take(n - 1);
        let more = s.take(n);
        assert(more =~= head.push(x));
        assert forall|y: u64| #[trigger] more.contains(y) <==> head.contains(y) || y == x by {
            if head.contains(y) {
                let k = choose|k: int| 0 <= k < head.len() && head[k] == y;
                assert(more[k] == y);
            }
            assert(more[n - 1] == x);
            if more.contains(y) && y != x {
                let k = choose|k: int| 0 <= k < more.len() && more[k] == y;
                assert(head[k] == y);
            }
        }
        if x != id {
            assert forall|y: u64| #[trigger] after.contains(y) <==> before.contains(y) || y == x by {
                if before.contains(y) {
                    let k = choose|k: int| 0 <= k < before.len() && before[k] == y;
                    assert(after[k] == y);
                }
                assert(after[before.len() as int] == x);
            }
            if s.no_duplicates() {
                if before.contains(x) {
                    assert(head.contains(x));
                    let k = choose|k: int| 0 <= k < head.len() && head[k] == x;
                    assert(s[k] == s[n - 1]);
                }
            }
        }
    }
    assert(s.take(s.len() as int) =~= s);
}

/// Projects a vector and puts its record into the index.
pub fn project_and_insert<F: Fn(Op, u32, u32, u32) -> u32>(
    fpu: &F,
    index: &mut CentroidIndex,
    projector: &Projector,
    id: u64,
    full_vec: &[u32],
)
    requires
        arith::is_unit(*fpu),
        old(index).wf(),
        projector.wf(),
        full_vec@.len() == projector.in_dim,
    ensures
        final(index).wf(),
        old(index).tight() && !old(index).assignment@.contains_key(id) ==> final(index).tight(),
        final(index).centroids@ == old(index).centroids@,
        ({
            let c = old(index).nearest(
                arith::arith(*fpu),
                projector.projected(arith::arith(*fpu), full_vec@),
            );
            &&& final(index).assignment@ == old(index).assignment@.insert(id, c as usize)
            &&& final(index).bucket_lists() == old(index).bucket_lists().update(
                c,
                old(index).bucket_lists()[c].push(id),
            )
        }),
{
    let projected: Vec<u32> = projector.project(fpu, full_vec);
    index.insert(fpu, id, &projected);
}

/// A search that looks into every bucket finds every record of the index.
pub proof fn full_probe_finds_all(index: CentroidIndex, ar: Arith, v: Seq<u32>, nprobe: int, id: u64)
    requires
        index.wf(),
        nprobe >= index.centroids@.len(),
        index.assignment@.contains_key(id),
        index.centroids@.len() <= u64::MAX,
    ensures
        index.candidate_ids(ar, v, nprobe).contains(id),
{
    let d = distances_to(ar, rows(index.centroids@), v);
    let n = index.centroids@.len() as int;
    let c = index.assignment@[id] as int;
    let order = probing_order(d);
    sorting::lemma_ranked(keyed(d));
    assert(keyed(d)[c].1 == c);
    assert(keyed(d).contains(keyed(d)[c]));
    assert(order.contains(keyed(d)[c]));
    let i = choose|i: int| 0 <= i < order.len() && order[i] == keyed(d)[c];
    assert(index.bucket_lists()[c].contains(id));
    lemma_gathered(index.bucket_lists(), order, n, i, id);
}

pub(crate) proof fn lemma_gathered(buckets: Seq<Seq<u64>>, order: Seq<(u64, u64)>, n: int, i: int, id: u64)
    requires
        0 <= i < n <= order.len(),
        buckets[order[i].1 as int].contains(id),
    ensures
        gathered(buckets, order, n).contains(id),
    decreases n,
{
    let before = gathered(buckets, order, n - 1);
    let all = gathered(buckets, order, n);
    if i < n - 1 {
        lemma_gathered(buckets, order, n - 1, i, id);
        let k = choose|k: int| 0 <= k < before.len() && before[k] == id;
        assert(all[k] == id);
    } else {
        let b = buckets[order[i].1 as int];
        let k = choose|k: int| 0 <= k < b.len() && b[k] == id;
        assert(all[before.len() + k] == id);
    }
}

/// A search looks at no record twice.
pub proof fn candidates_are_distinct(index: CentroidIndex, ar: Arith, v: Seq<u32>, nprobe: int)
    requires
        index.wf(),
        index.tight(),
        index.centroids@.len() <= u64::MAX,
    ensures
        index.candidate_ids(ar, v, nprobe).no_duplicates(),
{
    let d = distances_to(ar, rows(index.centroids@), v);
    let n = index.centroids@.len() as int;
    let all = keyed(d);
    let order = probing_order(d);
    sorting::lemma_ranked(all);
    assert forall|i: int, j: int| 0 <= i < all.len() && 0 <= j < all.len() && i != j implies all[i]
        != all[j] by {
        assert(all[i].1 == i && all[j].1 == j);
    }
    assert(all.no_duplicates());
    assert forall|i: int| #![trigger order[i]] 0 <= i < order.len() implies 0 <= order[i].1 < n
        && order[i] == all[order[i].1 as int] by {
        assert(order.contains(order[i]));
        let k = choose|k: int| 0 <= k < all.len() && all[k] == order[i];
        assert(all[k].1 == k);
    }
    assert forall|i: int, j: int|
        0 <= i < order.len() && 0 <= j < order.len() && i != j implies order[i].1 != order[j].1 by {
        assert(order[i] != order[j]);
        assert(order[i] == all[order[i].1 as int]);
        assert(order[j] == all[order[j].1 as int]);
    }
    lemma_gathered_distinct(index, order, probes(n, nprobe));
}

pub(crate) proof fn lemma_gathered_distinct(index: CentroidIndex, order: Seq<(u64, u64)>, n: int)
    requires
        index.tight(),
        0 <= n <= order.len(),
        forall|i: int|
            #![trigger order[i]]
            0 <= i < order.len() ==> 0 <= order[i].1 < index.buckets@.len(),
        forall|i: int, j: int|
            0 <= i < order.len() && 0 <= j < order.len() && i != j ==> order[i].1 != order[j].1,
    ensures
        gathered(index.bucket_lists(), order, n).no_duplicates(),
        forall|x: u64| #[trigger]
            gathered(index.bucket_lists(), order, n).contains(x) ==> index.assignment@.contains_key(x)
                && exists|i: int| 0 <= i < n && (#[trigger] order[i]).1 == index.assignment@[x],
    decreases n,
{
    let buckets = index.bucket_lists();
    let all = gathered(buckets, order, n);
    if n > 0 {
        lemma_gathered_distinct(index, order, n - 1);
        let before = gathered(buckets, order, n - 1);
        let c = order[n - 1].1 as int;
        let last = buckets[c];
        assert(last.no_duplicates());
        assert forall|x: u64| #[trigger] all.contains(x) implies index.assignment@.contains_key(x)
            && exists|i: int| 0 <= i < n && (#[trigger] order[i]).1 == index.assignment@[x] by {
            let k = choose|k: int| 0 <= k < all.len() && all[k] == x;
            if k < before.len() {
                assert(before[k] == x);
                assert(before.contains(x));
                let i = choose|i: int|
                    0 <= i < n - 1 && (#[trigger] order[i]).1 == index.assignment@[x];
                assert(order[i].1 == index.assignment@[x]);
            } else {
                assert(last[k - before.len()] == x);
                assert(last.contains(x));
                assert(order[n - 1].1 == index.assignment@[x]);
            }
        }
        assert forall|i: int, j: int| 0 <= i < j < all.len() implies all[i] != all[j] by {
            if j < before.len() {
                assert(before[i] != before[j]);
            } else {
                let y = last[j - before.len()];
                assert(last.contains(y));
                if i < before.len() {
                    let x = before[i];
                    assert(before.contains(x));
                    let m = choose|m: int|
                        0 <= m < n - 1 && (#[trigger] order[m]).1 == index.assignment@[x];
                    assert(order[m].1 != order[n - 1].1);
                } else {
                    assert(last[i - before.len()] != last[j - before.len()]);
                }
            }
        }
    }
}

} // verus!
