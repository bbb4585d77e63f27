//! Putting a database together from its stored parts.

use std::collections::HashMap;
use vstd::prelude::*;

use super::EvictionPolicy;
use super::LatentDb;
use super::LatentDbError;
use crate::arena::lemma_live_ids;
use crate::arena::RecordArena;
use crate::clustering;
use crate::index::lists;
use crate::index::CentroidIndex;
use crate::pq;
use crate::pq::PqCodec;
use crate::projector::Projector;
use crate::vectors::rows;

verus! {

/// Entry `i` of bucket `c`.
pub open spec fn in_bucket(buckets: Seq<Seq<u64>>, c: int, i: int) -> bool {
    0 <= c < buckets.len() && 0 <= i < buckets[c].len()
}

/// The first `n` buckets hold only records, and no record twice.
pub open spec fn sorted_in(records: RecordArena, buckets: Seq<Seq<u64>>, n: int) -> bool {
    &&& forall|c: int, i: int|
        c < n && #[trigger] in_bucket(buckets, c, i) ==> records.lives(buckets[c][i])
    &&& forall|c: int, i: int, d: int, j: int|
        c < n && d < n && #[trigger] in_bucket(buckets, c, i) && #[trigger] in_bucket(buckets, d, j)
            && buckets[c][i] == buckets[d][j] ==> c == d && i == j
}

/// A record has codes that can be decoded, an id that was given out, and a
/// bucket.
pub open spec fn placed(
    records: RecordArena,
    codec: PqCodec,
    buckets: Seq<Seq<u64>>,
    next_id: u64,
    id: u64,
) -> bool {
    &&& pq::decodable(codec.books(), records.record(id).codes)
    &&& id < next_id
    &&& exists|c: int, i: int| #[trigger] in_bucket(buckets, c, i) && buckets[c][i] == id
}

/// The parts fit together.
pub open spec fn restorable(
    dim: usize,
    projector: Projector,
    codec: PqCodec,
    centroids: Seq<Vec<u32>>,
    buckets: Seq<Seq<u64>>,
    records: RecordArena,
    next_id: u64,
) -> bool {
    &&& projector.wf()
    &&& codec.wf()
    &&& codec.dim == dim
    &&& projector.in_dim == dim
    &&& records.code_len == codec.n_subspaces
    &&& centroids.len() > 0
    &&& buckets.len() == centroids.len()
    &&& sorted_in(records, buckets, buckets.len() as int)
    &&& forall|id: u64| #[trigger]
        records.lives(id) ==> placed(records, codec, buckets, next_id, id)
    &&& forall|x: u64, y: u64|
        #![trigger records.lives(x), records.lives(y)]
        records.lives(x) && records.lives(y) && records.record(x).hash == records.record(y).hash
            ==> x == y
}

/// Whether `product` is `a` times `b`.
fn is_product(product: usize, a: usize, b: usize) -> (r: bool)
    ensures
        r == (product == a * b),
{
    proof {
        let x = a as int;
        let y = b as int;
        assert(0 <= x * y <= u64::MAX * u64::MAX) by (nonlinear_arith)
            requires
                0 <= x <= u64::MAX,
                0 <= y <= u64::MAX,
        ;
    }
    product as u128 == a as u128 * b as u128
}

/// Whether a codebook has entries, all of `size` coordinates.
fn check_book(book: &Vec<Vec<u32>>, size: usize) -> (r: bool)
    ensures
        r == (rows(book@).len() > 0 && clustering::even(rows(book@), size as int)),
{
    if book.len() == 0 {
        return false;
    }
    let mut c: usize = 0;
    while c < book.len()
        invariant
            c <= book@.len(),
            forall|i: int| 0 <= i < c ==> (#[trigger] rows(book@)[i]).len() == size,
        decreases book@.len() - c,
    {
        if book[c].len() != size {
            assert(rows(book@)[c as int].len() != size);
            return false;
        }
        c += 1;
    }
    true
}

/// Whether a codec is sound.
fn check_codec(codec: &PqCodec) -> (r: bool)
    ensures
        r == codec.wf(),
{
    if codec.n_subspaces == 0 || codec.codebooks.len() != codec.n_subspaces {
        return false;
    }
    if !is_product(codec.dim, codec.n_subspaces, codec.sub_dim) {
        return false;
    }
    let ghost books = codec.books();
    let mut total: u64 = 0;
    let mut s: usize = 0;
    while s < codec.n_subspaces
        invariant
            s <= codec.n_subspaces,
            codec.codebooks@.len() == codec.n_subspaces,
            books == codec.books(),
            total == pq::offset(books, s as int),
            total <= u32::MAX,
            forall|t: int| 0 <= t < s ==> (#[trigger] books[t]).len() > 0,
            forall|t: int|
                0 <= t < s ==> clustering::even(#[trigger] books[t], codec.sub_dim as int),
        decreases codec.n_subspaces - s,
    {
        assert(books[s as int] == rows(codec.codebooks@[s as int]@));
        if !check_book(&codec.codebooks[s], codec.sub_dim) {
            return false;
        }
        let size: usize = codec.codebooks[s].len();
        if size as u64 > u32::MAX as u64 - total {
            proof {
                pq::lemma_offset_monotone(books, s + 1, codec.n_subspaces as int);
            }
            return false;
        }
        total = total + size as u64;
        s += 1;
    }
    true
}

/// The bucket of each record; `None` if the buckets hold what is not a
/// record, or one twice.
fn assign_buckets(buckets: &Vec<Vec<u64>>, records: &RecordArena) -> (r: Option<HashMap<u64, usize>>)
    ensures
        r is Some <==> sorted_in(*records, lists(buckets@), buckets@.len() as int),
        r is Some ==> assigns(lists(buckets@), buckets@.len() as int, r->0@),
{
    broadcast use vstd::std_specs::hash::group_hash_axioms;

    let ghost all = lists(buckets@);
    let mut r: HashMap<u64, usize> = HashMap::new();
    let mut c: usize = 0;
    while c < buckets.len()
        invariant
            c <= buckets@.len(),
            all == lists(buckets@),
            sorted_in(*records, all, c as int),
            assigns(all, c as int, r@),
        decreases buckets@.len() - c,
    {
        broadcast use vstd::std_specs::hash::group_hash_axioms;

        let ghost start = r@;
        let bucket: &Vec<u64> = &buckets[c];
        assert(all[c as int] == bucket@);
        let mut i: usize = 0;
        while i < bucket.len()
            invariant
                i <= bucket@.len(),
                c < buckets@.len(),
                all == lists(buckets@),
                all[c as int] == bucket@,
                sorted_in(*records, all, c as int),
                assigns(all, c as int, start),
                forall|id: u64| #[trigger]
                    r@.contains_key(id) ==> (start.contains_key(id) && r@[id] == start[id])
                        || (r@[id] == c && exists|k: int| 0 <= k < i && #[trigger] bucket@[k] == id),
                forall|id: u64| start.contains_key(id) ==> #[trigger] r@.contains_key(id),
                forall|k: int| 0 <= k < i ==> r@.contains_key(#[trigger] bucket@[k]),
                forall|k: int|
                    0 <= k < i ==> records.lives(#[trigger] bucket@[k]) && !start.contains_key(
                        bucket@[k],
                    ),
                forall|k: int, m: int| 0 <= k < m < i ==> bucket@[k] != bucket@[m],
            decreases bucket@.len() - i,
        {
            broadcast use vstd::std_specs::hash::group_hash_axioms;

            let id: u64 = bucket[i];
            let ghost before = r@;
            assert(in_bucket(all, c as int, i as int));
            if !records.is_live(id) {
                return None;
            }
            if r.contains_key(&id) {
                proof {
                    if start.contains_key(id) {
                        let (d, k) = choose|d: int, k: int|
                            d < c && #[trigger] in_bucket(all, d, k) && all[d][k] == id;
                        assert(in_bucket(all, d, k));
                    } else {
                        let k = choose|k: int| 0 <= k < i && #[trigger] bucket@[k] == id;
                        assert(in_bucket(all, c as int, k));
                    }
                }
                return None;
            }
            r.insert(id, c);
            proof {
                assert forall|x: u64| #[trigger] r@.contains_key(x) implies (start.contains_key(x)
                    && r@[x] == start[x]) || (r@[x] == c && exists|k: int|
                    0 <= k < i + 1 && #[trigger] bucket@[k] == x) by {
                    if x == id {
                        assert(bucket@[i as int] == x);
                    } else {
                        assert(before.contains_key(x));
                        if !(start.contains_key(x) && before[x] == start[x]) {
                            let k = choose|k: int| 0 <= k < i && #[trigger] bucket@[k] == x;
                            assert(bucket@[k] == x);
                        }
                    }
                }
            }
            i += 1;
        }
        proof {
            assert forall|d: int, k: int|
                d < c + 1 && #[trigger] in_bucket(all, d, k) implies records.lives(all[d][k]) by {
                if d == c {
                    assert(records.lives(bucket@[k]));
                }
            }
            assert forall|d: int, i: int, e: int, j: int|
                d < c + 1 && e < c + 1 && #[trigger] in_bucket(all, d, i) && #[trigger] in_bucket(
                    all,
                    e,
                    j,
                ) && all[d][i] == all[e][j] implies d == e && i == j by {
                if d == c && e == c {
                    if i < j {
                        assert(bucket@[i] != bucket@[j]);
                    } else if j < i {
                        assert(bucket@[j] != bucket@[i]);
                    }
                } else if d == c {
                    assert(start.contains_key(all[e][j]));
                    assert(!start.contains_key(bucket@[i]));
                } else if e == c {
                    assert(start.contains_key(all[d][i]));
                    assert(!start.contains_key(bucket@[j]));
                }
            }
            assert forall|d: int, k: int| d < c + 1 && #[trigger] in_bucket(all, d, k) implies r@.contains_key(
            all[d][k]) && r@[all[d][k]] == d by {
                let id = all[d][k];
                if d == c {
                    assert(r@.contains_key(bucket@[k]));
                    assert(!start.contains_key(bucket@[k]));
                } else {
                    assert(start.contains_key(id));
                    assert(r@.contains_key(id));
                    if r@[id] == c {
                        if exists|m: int| 0 <= m < bucket@.len() && #[trigger] bucket@[m] == id {
                            let m = choose|m: int| 0 <= m < bucket@.len() && #[trigger] bucket@[m] == id;
                            assert(!start.contains_key(bucket@[m]));
                        }
                    }
                }
            }
            assert forall|id: u64| #[trigger] r@.contains_key(id) implies exists|d: int, k: int|
                d < c + 1 && #[trigger] in_bucket(all, d, k) && all[d][k] == id by {
                if start.contains_key(id) {
                    let (d, k) = choose|d: int, k: int|
                        d < c && #[trigger] in_bucket(all, d, k) && all[d][k] == id;
                    assert(in_bucket(all, d, k));
                } else {
                    let k = choose|k: int| 0 <= k < bucket@.len() && #[trigger] bucket@[k] == id;
                    assert(in_bucket(all, c as int, k));
                }
            }
        }
        c += 1;
    }
    Some(r)
}

/// `m` gives each record in the first `n` buckets its bucket, and nothing to
/// others.
pub open spec fn assigns(buckets: Seq<Seq<u64>>, n: int, m: Map<u64, usize>) -> bool {
    &&& forall|c: int, i: int|
        c < n && #[trigger] in_bucket(buckets, c, i) ==> m.contains_key(buckets[c][i])
            && m[buckets[c][i]] == c
    &&& forall|id: u64| #[trigger]
        m.contains_key(id) ==> exists|c: int, i: int|
            c < n && #[trigger] in_bucket(buckets, c, i) && buckets[c][i] == id
}

/// Whether every code selects an entry.
fn check_codes(codec: &PqCodec, codes: &[u8]) -> (r: bool)
    requires
        codec.wf(),
        codes@.len() == codec.n_subspaces,
    ensures
        r == pq::decodable(codec.books(), codes@),
{
    let ghost books = codec.books();
    let mut s: usize = 0;
    while s < codec.n_subspaces
        invariant
            s <= codec.n_subspaces,
            codec.wf(),
            books == codec.books(),
            codes@.len() == codec.n_subspaces,
            forall|t: int| 0 <= t < s ==> #[trigger] codes@[t] < books[t].len(),
        decreases codec.n_subspaces - s,
    {
        assert(books[s as int] == rows(codec.codebooks@[s as int]@));
        if codes[s] as usize >= codec.codebooks[s].len() {
            assert(!(codes@[s as int] < books[s as int].len()));
            return false;
        }
        s += 1;
    }
    true
}

/// The record of each content hash; `None` if a record has no place, or two
/// have one hash.
fn index_hashes(
    records: &RecordArena,
    codec: &PqCodec,
    assignment: &HashMap<u64, usize>,
    next_id: u64,
    Ghost(buckets): Ghost<Seq<Seq<u64>>>,
) -> (r: Option<HashMap<u64, u64>>)
    requires
        records.wf(),
        codec.wf(),
        records.code_len == codec.n_subspaces,
        assigns(buckets, buckets.len() as int, assignment@),
    ensures
        r is Some <==> (forall|id: u64| #[trigger]
            records.lives(id) ==> placed(*records, *codec, buckets, next_id, id)) && (forall|
            x: u64,
            y: u64,
        |
            #![trigger records.lives(x), records.lives(y)]
            records.lives(x) && records.lives(y) && records.record(x).hash == records.record(
                y,
            ).hash ==> x == y),
        r is Some ==> (forall|id: u64| #[trigger]
            records.lives(id) ==> r->0@.contains_key(records.record(id).hash)
                && r->0@[records.record(id).hash] == id) && (forall|h: u64| #[trigger]
            r->0@.contains_key(h) ==> records.lives(r->0@[h]) && records.record(r->0@[h]).hash
                == h),
{
    broadcast use vstd::std_specs::hash::group_hash_axioms;

    let slots: usize = records.capacity();
    let ids: Vec<u64> = records.ids();
    proof {
        lemma_live_ids(records.live@, records.live@.len() as int);
    }
    let mut r: HashMap<u64, u64> = HashMap::new();
    let mut i: usize = 0;
    while i < ids.len()
        invariant
            i <= ids@.len(),
            records.wf(),
            codec.wf(),
            records.code_len == codec.n_subspaces,
            assigns(buckets, buckets.len() as int, assignment@),
            forall|j: int| 0 <= j < ids@.len() ==> records.lives(#[trigger] ids@[j]),
            forall|j: int, k: int| 0 <= j < k < ids@.len() ==> ids@[j] < ids@[k],
            forall|j: int|
                0 <= j < i ==> placed(*records, *codec, buckets, next_id, #[trigger] ids@[j])
                    && r@.contains_key(records.record(ids@[j]).hash)
                    && r@[records.record(ids@[j]).hash] == ids@[j],
            forall|h: u64| #[trigger]
                r@.contains_key(h) ==> exists|j: int|
                    0 <= j < i && #[trigger] ids@[j] == r@[h] && records.record(ids@[j]).hash == h,
        decreases ids@.len() - i,
    {
        broadcast use vstd::std_specs::hash::group_hash_axioms;

        let id: u64 = ids[i];
        let ghost before = r@;
        assert(records.lives(ids@[i as int]));
        assert(records.contents()[id] == records.record(id));
        let codes: &[u8] = records.codes(id).unwrap();
        proof {
            crate::arena::lemma_slot_fits(*records, id as int);
        }
        if !check_codes(codec, codes) || id >= next_id {
            return None;
        }
        if !assignment.contains_key(&id) {
            proof {
                if placed(*records, *codec, buckets, next_id, id) {
                    let (c, k) = choose|c: int, k: int| #[trigger]
                        in_bucket(buckets, c, k) && buckets[c][k] == id;
                    assert(in_bucket(buckets, c, k));
                }
            }
            return None;
        }
        let hash: u64 = records.hash(id).unwrap();
        if r.contains_key(&hash) {
            proof {
                let j = choose|j: int|
                    0 <= j < i && #[trigger] ids@[j] == r@[hash] && records.record(ids@[j]).hash
                        == hash;
                assert(records.lives(ids@[j]));
                assert(ids@[j] < ids@[i as int]);
                assert(records.lives(id));
            }
            return None;
        }
        r.insert(hash, id);
        proof {
            assert(assignment@.contains_key(id));
            let (c, k) = choose|c: int, k: int|
                c < buckets.len() && #[trigger] in_bucket(buckets, c, k) && buckets[c][k] == id;
            assert(in_bucket(buckets, c, k));
            assert(placed(*records, *codec, buckets, next_id, id));
            assert forall|j: int| 0 <= j < i + 1 implies placed(
                *records,
                *codec,
                buckets,
                next_id,
                #[trigger] ids@[j],
            ) && r@.contains_key(records.record(ids@[j]).hash) && r@[records.record(ids@[j]).hash]
                == ids@[j] by {
                if j < i {
                    assert(before.contains_key(records.record(ids@[j]).hash));
                }
            }
            assert forall|h: u64| #[trigger] r@.contains_key(h) implies exists|j: int|
                0 <= j < i + 1 && #[trigger] ids@[j] == r@[h] && records.record(ids@[j]).hash == h by {
                if h == hash {
                    assert(ids@[i as int] == r@[h]);
                } else {
                    assert(before.contains_key(h));
                    let j = choose|j: int|
                        0 <= j < i && #[trigger] ids@[j] == before[h] && records.record(ids@[j]).hash
                            == h;
                    assert(ids@[j] == r@[h]);
                }
            }
        }
        i += 1;
    }
    proof {
        assert forall|id: u64| #[trigger] records.lives(id) implies placed(
            *records,
            *codec,
            buckets,
            next_id,
            id,
        ) && r@.contains_key(records.record(id).hash) && r@[records.record(id).hash] == id by {
            assert(records.id_list().contains((id as int) as u64));
            let j = choose|j: int| 0 <= j < ids@.len() && ids@[j] == id;
            assert(ids@[j] == id);
        }
        assert forall|h: u64| #[trigger] r@.contains_key(h) implies records.lives(r@[h])
            && records.record(r@[h]).hash == h by {
            let j = choose|j: int|
                0 <= j < i && #[trigger] ids@[j] == r@[h] && records.record(ids@[j]).hash == h;
            assert(records.lives(ids@[j]));
        }
    }
    Some(r)
}

/// Whether `b` is the table `a` that gives each record its bucket.
fn same_assignment(
    a: &HashMap<u64, usize>,
    b: &HashMap<u64, usize>,
    buckets: &Vec<Vec<u64>>,
) -> (r: bool)
    requires
        assigns(lists(buckets@), buckets@.len() as int, a@),
    ensures
        r == (a@ == b@),
{
    broadcast use vstd::std_specs::hash::group_hash_axioms;

    let ghost all = lists(buckets@);
    if a.len() != b.len() {
        return false;
    }
    let mut c: usize = 0;
    while c < buckets.len()
        invariant
            c <= buckets@.len(),
            all == lists(buckets@),
            assigns(all, buckets@.len() as int, a@),
            forall|d: int, k: int|
                d < c && #[trigger] in_bucket(all, d, k) ==> b@.contains_key(all[d][k])
                    && b@[all[d][k]] == d,
        decreases buckets@.len() - c,
    {
        let bucket: &Vec<u64> = &buckets[c];
        assert(all[c as int] == bucket@);
        let mut i: usize = 0;
        while i < bucket.len()
            invariant
                i <= bucket@.len(),
                c < buckets@.len(),
                all == lists(buckets@),
                all[c as int] == bucket@,
                assigns(all, buckets@.len() as int, a@),
                forall|k: int|
                    0 <= k < i ==> b@.contains_key(#[trigger] bucket@[k]) && b@[bucket@[k]] == c,
            decreases bucket@.len() - i,
        {
            broadcast use vstd::std_specs::hash::group_hash_axioms;

            assert(in_bucket(all, c as int, i as int));
            match b.get(&bucket[i]) {
                Some(theirs) => {
                    if *theirs != c {
                        return false;
                    }
                },
                None => {
                    return false;
                },
            }
            i += 1;
        }
        assert forall|d: int, k: int|
            d < c + 1 && #[trigger] in_bucket(all, d, k) implies b@.contains_key(all[d][k])
            && b@[all[d][k]] == d by {
            if d == c {
                assert(b@.contains_key(bucket@[k]));
            }
        }
        c += 1;
    }
    proof {
        let n = buckets@.len() as int;
        assert forall|x: u64| #[trigger] a@.contains_key(x) implies b@.contains_key(x) && b@[x]
            == a@[x] by {
            let (d, k) = choose|d: int, k: int|
                d < n && #[trigger] in_bucket(all, d, k) && all[d][k] == x;
            assert(in_bucket(all, d, k));
        }
        assert(a@.dom().subset_of(b@.dom())) by {
            assert forall|x: u64| a@.dom().contains(x) implies b@.dom().contains(x) by {
                assert(a@.contains_key(x));
            }
        }
        vstd::set_lib::lemma_subset_equality(a@.dom(), b@.dom());
        assert(a@ =~= b@);
    }
    true
}

/// Whether the codes of every record can be decoded.
fn check_records(records: &RecordArena, codec: &PqCodec) -> (r: bool)
    requires
        records.wf(),
        codec.wf(),
        records.code_len == codec.n_subspaces,
    ensures
        r == forall|id: u64| #[trigger]
            records.lives(id) ==> pq::decodable(codec.books(), records.record(id).codes),
{
    let slots: usize = records.capacity();
    let ids: Vec<u64> = records.ids();
    proof {
        lemma_live_ids(records.live@, records.live@.len() as int);
    }
    let mut i: usize = 0;
    while i < ids.len()
        invariant
            i <= ids@.len(),
            records.wf(),
            codec.wf(),
            records.code_len == codec.n_subspaces,
            forall|j: int| 0 <= j < ids@.len() ==> records.lives(#[trigger] ids@[j]),
            forall|j: int|
                0 <= j < i ==> pq::decodable(
                    codec.books(),
                    records.record(#[trigger] ids@[j]).codes,
                ),
        decreases ids@.len() - i,
    {
        let id: u64 = ids[i];
        assert(records.lives(ids@[i as int]));
        assert(records.contents()[id] == records.record(id));
        let codes: &[u8] = records.codes(id).unwrap();
        proof {
            crate::arena::lemma_slot_fits(*records, id as int);
        }
        if !check_codes(codec, codes) {
            return false;
        }
        i += 1;
    }
    assert forall|id: u64| #[trigger] records.lives(id) implies pq::decodable(
        codec.books(),
        records.record(id).codes,
    ) by {
        assert(records.id_list().contains((id as int) as u64));
        let j = choose|j: int| 0 <= j < ids@.len() && ids@[j] == id;
        assert(pq::decodable(codec.books(), records.record(ids@[j]).codes));
    }
    true
}

/// Whether `b` has the record `ids[i]` under the hash of it, for every `i`,
/// and nothing else, where `a` has.
fn same_hashes(
    a: &HashMap<u64, u64>,
    b: &HashMap<u64, u64>,
    records: &RecordArena,
    ids: &Vec<u64>,
) -> (r: bool)
    requires
        records.wf(),
        forall|j: int| 0 <= j < ids@.len() ==> records.lives(#[trigger] ids@[j]),
        forall|j: int|
            0 <= j < ids@.len() ==> a@.contains_key(records.record(#[trigger] ids@[j]).hash)
                && a@[records.record(ids@[j]).hash] == ids@[j],
        forall|h: u64| #[trigger]
            a@.contains_key(h) ==> ids@.contains(a@[h]) && records.record(a@[h]).hash == h,
    ensures
        r == (a@ == b@),
{
    broadcast use vstd::std_specs::hash::group_hash_axioms;

    if a.len() != b.len() {
        return false;
    }
    let mut i: usize = 0;
    while i < ids.len()
        invariant
            i <= ids@.len(),
            records.wf(),
            forall|j: int| 0 <= j < ids@.len() ==> records.lives(#[trigger] ids@[j]),
            forall|j: int|
                0 <= j < ids@.len() ==> a@.contains_key(records.record(#[trigger] ids@[j]).hash)
                    && a@[records.record(ids@[j]).hash] == ids@[j],
            forall|j: int|
                0 <= j < i ==> b@.contains_key(records.record(#[trigger] ids@[j]).hash)
                    && b@[records.record(ids@[j]).hash] == ids@[j],
        decreases ids@.len() - i,
    {
        broadcast use vstd::std_specs::hash::group_hash_axioms;

        let id: u64 = ids[i];
        assert(records.lives(ids@[i as int]));
        assert(records.contents()[id] == records.record(id));
        let hash: u64 = records.hash(id).unwrap();
        match b.get(&hash) {
            Some(theirs) => {
                if *theirs != id {
                    return false;
                }
            },
            None => {
                return false;
            },
        }
        i += 1;
    }
    proof {
        assert forall|h: u64| #[trigger] a@.contains_key(h) implies b@.contains_key(h) && b@[h]
            == a@[h] by {
            let j = choose|j: int| 0 <= j < ids@.len() && ids@[j] == a@[h];
            assert(records.record(ids@[j]).hash == h);
        }
        assert(a@.dom().subset_of(b@.dom())) by {
            assert forall|h: u64| a@.dom().contains(h) implies b@.dom().contains(h) by {
                assert(a@.contains_key(h));
            }
        }
        vstd::set_lib::lemma_subset_equality(a@.dom(), b@.dom());
        assert(a@ =~= b@);
    }
    true
}

impl LatentDb {
    /// The parts of this database fit together as stored.
    pub open spec fn stored_soundly(&self) -> bool {
        restorable(
            self.dim,
            self.projector,
            self.pq,
            self.index.centroids@,
            self.index.bucket_lists(),
            self.records,
            self.next_id,
        )
    }

    /// Checks the records of a database that was read back.
    pub fn validate_after_deserialize(&self) -> (r: Result<(), LatentDbError>)
        ensures
            r is Ok <==> self.records.wf(),
            r is Err ==> r->Err_0 is Serialize && self.records.complaint() is Some
                && r->Err_0->Serialize_0@ == self.records.complaint()->0,
    {
        match self.records.validate() {
            Ok(()) => Ok(()),
            Err(message) => Err(LatentDbError::Serialize(message)),
        }
    }

    /// Puts a database together from its stored parts. Refuses records that do
    /// not fit together; whether all other parts do, `is_sound` tells, and whether
    /// enough of them do for a search, `is_answerable`.
    pub fn restore(
        dim: usize,
        projector: Projector,
        pq: PqCodec,
        index: CentroidIndex,
        records: RecordArena,
        hash_to_id: HashMap<u64, u64>,
        next_id: u64,
        record_budget: usize,
        eviction_policy: EvictionPolicy,
    ) -> (r: Result<LatentDb, LatentDbError>)
        ensures
            r is Ok <==> records.wf(),
            r is Err ==> r->Err_0 is Serialize && records.complaint() is Some
                && r->Err_0->Serialize_0@ == records.complaint()->0,
            r is Ok ==> r->Ok_0 == (LatentDb {
                dim,
                projector,
                pq,
                index,
                records,
                hash_to_id,
                next_id,
                record_budget,
                eviction_policy,
                merkle_cache: None,
            }),
    {
        let db: LatentDb = LatentDb {
            dim,
            projector,
            pq,
            index,
            records,
            hash_to_id,
            next_id,
            record_budget,
            eviction_policy,
            merkle_cache: None,
        };
        match db.validate_after_deserialize() {
            Ok(()) => Ok(db),
            Err(e) => Err(e),
        }
    }

    /// Whether the database can be searched.
    pub fn is_answerable(&self) -> (r: bool)
        ensures
            r == self.answerable(),
    {
        if self.records.validate().is_err() {
            return false;
        }
        if !is_product(
            self.projector.matrix.len(),
            self.projector.in_dim,
            self.projector.out_dim,
        ) || !check_codec(&self.pq) {
            return false;
        }
        if self.pq.dim != self.dim || self.projector.in_dim != self.dim || self.records.code_len
            != self.pq.n_subspaces {
            return false;
        }
        if self.index.centroids.len() == 0 || self.index.buckets.len()
            != self.index.centroids.len() {
            return false;
        }
        if !check_records(&self.records, &self.pq) {
            return false;
        }
        proof {
            if self.answerable() {
                lemma_index_is_sorted(self.index, self.records);
            }
        }
        let assignment: HashMap<u64, usize> = match assign_buckets(
            &self.index.buckets,
            &self.records,
        ) {
            Some(m) => m,
            None => {
                return false;
            },
        };
        let r: bool = same_assignment(&assignment, &self.index.assignment, &self.index.buckets);
        proof {
            if r {
                lemma_sorted_index_fits(self.index, self.records);
            }
            if self.answerable() {
                lemma_assignment_determined(
                    self.index.bucket_lists(),
                    assignment@,
                    self.index.assignment@,
                );
            }
        }
        r
    }

    /// Whether all parts fit together. Says nothing of a Merkle tree that is
    /// kept.
    pub fn is_sound(&self) -> (r: bool)
        ensures
            r == self.sound(),
    {
        let ghost all = self.index.bucket_lists();
        proof {
            if self.sound() {
                lemma_sound_is_answerable(*self);
                lemma_sound_is_restorable(*self);
            }
        }
        if !self.is_answerable() {
            return false;
        }
        proof {
            lemma_index_is_sorted(self.index, self.records);
        }
        let hash_to_id: HashMap<u64, u64> = match index_hashes(
            &self.records,
            &self.pq,
            &self.index.assignment,
            self.next_id,
            Ghost(all),
        ) {
            Some(m) => m,
            None => {
                return false;
            },
        };
        let slots: usize = self.records.capacity();
        let ids: Vec<u64> = self.records.ids();
        proof {
            lemma_live_ids(self.records.live@, self.records.live@.len() as int);
            assert(self.stored_soundly());
            assert forall|x: u64| ids@.contains(x) <==> #[trigger] self.records.lives(x) by {
                if self.records.lives(x) {
                    assert(ids@.contains((x as int) as u64));
                }
                if ids@.contains(x) {
                    let j = choose|j: int| 0 <= j < ids@.len() && ids@[j] == x;
                    assert(ids@[j] < slots);
                }
            }
            assert forall|j: int| 0 <= j < ids@.len() implies self.records.lives(
                #[trigger] ids@[j],
            ) by {
                assert(ids@.contains(ids@[j]));
            }
            assert forall|h: u64| #[trigger] hash_to_id@.contains_key(h) implies ids@.contains(
                hash_to_id@[h],
            ) && self.records.record(hash_to_id@[h]).hash == h by {
                assert(self.records.lives(hash_to_id@[h]));
            }
        }
        let r: bool = same_hashes(&hash_to_id, &self.hash_to_id, &self.records, &ids);
        proof {
            if r {
                lemma_restorable_is_sound(*self);
            }
            if self.sound() {
                lemma_hashes_determined(*self, hash_to_id@);
            }
        }
        r
    }
}

/// Buckets that hold each record once, with the table that belongs to them,
/// make a sound index of records only.
proof fn lemma_sorted_index_fits(index: CentroidIndex, records: RecordArena)
    requires
        index.centroids@.len() > 0,
        index.buckets@.len() == index.centroids@.len(),
        sorted_in(records, index.bucket_lists(), index.bucket_lists().len() as int),
        assigns(index.bucket_lists(), index.bucket_lists().len() as int, index.assignment@),
    ensures
        index.wf(),
        index.tight(),
        forall|id: u64| #[trigger] index.assignment@.contains_key(id) ==> records.lives(id),
{
    let all = index.bucket_lists();
    let n = all.len() as int;
    let m = index.assignment@;
    assert forall|id: u64| #[trigger] m.contains_key(id) implies m[id] < n && all[m[id] as int].contains(
    id) && records.lives(id) by {
        let (c, i) = choose|c: int, i: int|
            c < n && #[trigger] in_bucket(all, c, i) && all[c][i] == id;
        assert(in_bucket(all, c, i));
    }
    assert forall|c: int, id: u64| 0 <= c < n && #[trigger] all[c].contains(id) implies m.contains_key(
    id) && m[id] == c by {
        let i = choose|i: int| 0 <= i < all[c].len() && all[c][i] == id;
        assert(in_bucket(all, c, i));
    }
    assert forall|c: int| 0 <= c < n implies (#[trigger] all[c]).no_duplicates() by {
        assert forall|i: int, j: int|
            0 <= i < all[c].len() && 0 <= j < all[c].len() && i != j implies all[c][i]
            != all[c][j] by {
            assert(in_bucket(all, c, i) && in_bucket(all, c, j));
        }
    }
}

/// A sound index of records only has such buckets and such a table.
proof fn lemma_index_is_sorted(index: CentroidIndex, records: RecordArena)
    requires
        index.wf(),
        index.tight(),
        forall|id: u64| #[trigger] index.assignment@.contains_key(id) ==> records.lives(id),
    ensures
        sorted_in(records, index.bucket_lists(), index.bucket_lists().len() as int),
        assigns(index.bucket_lists(), index.bucket_lists().len() as int, index.assignment@),
{
    let all = index.bucket_lists();
    let m = index.assignment@;
    assert forall|c: int, i: int| c < all.len() && #[trigger] in_bucket(all, c, i) implies records.lives(
    all[c][i]) && m.contains_key(all[c][i]) && m[all[c][i]] == c by {
        assert(all[c].contains(all[c][i]));
        assert(m.contains_key(all[c][i]));
    }
    assert forall|c: int, i: int, d: int, j: int|
        c < all.len() && d < all.len() && #[trigger] in_bucket(all, c, i) && #[trigger] in_bucket(
            all,
            d,
            j,
        ) && all[c][i] == all[d][j] implies c == d && i == j by {
        assert(all[c].contains(all[c][i]));
        assert(all[d].contains(all[d][j]));
        assert(all[c].no_duplicates());
    }
    assert forall|id: u64| #[trigger] m.contains_key(id) implies exists|c: int, i: int|
        c < all.len() && #[trigger] in_bucket(all, c, i) && all[c][i] == id by {
        let c = m[id] as int;
        let i = choose|i: int| 0 <= i < all[c].len() && all[c][i] == id;
        assert(in_bucket(all, c, i));
    }
}

/// One table belongs to the buckets.
proof fn lemma_assignment_determined(
    all: Seq<Seq<u64>>,
    a: Map<u64, usize>,
    b: Map<u64, usize>,
)
    requires
        assigns(all, all.len() as int, a),
        assigns(all, all.len() as int, b),
    ensures
        a == b,
{
    assert forall|x: u64| #[trigger] a.contains_key(x) <==> b.contains_key(x) by {
        if a.contains_key(x) {
            let (c, i) = choose|c: int, i: int|
                c < all.len() && #[trigger] in_bucket(all, c, i) && all[c][i] == x;
            assert(in_bucket(all, c, i));
        }
        if b.contains_key(x) {
            let (c, i) = choose|c: int, i: int|
                c < all.len() && #[trigger] in_bucket(all, c, i) && all[c][i] == x;
            assert(in_bucket(all, c, i));
        }
    }
    assert forall|x: u64| #[trigger] a.contains_key(x) implies a[x] == b[x] by {
        let (c, i) = choose|c: int, i: int|
            c < all.len() && #[trigger] in_bucket(all, c, i) && all[c][i] == x;
        assert(in_bucket(all, c, i));
    }
    assert(a =~= b);
}

proof fn lemma_sound_is_answerable(db: LatentDb)
    requires
        db.sound(),
    ensures
        db.answerable(),
{
    assert forall|id: u64| #[trigger] db.records.lives(id) implies pq::decodable(
        db.pq.books(),
        db.records.record(id).codes,
    ) by {
        assert(db.fits(id));
    }
}

/// Parts that fit, with the table of hashes that belongs to them, are sound.
proof fn lemma_restorable_is_sound(db: LatentDb)
    requires
        db.answerable(),
        db.stored_soundly(),
        forall|id: u64| #[trigger]
            db.records.lives(id) ==> db.hash_to_id@.contains_key(db.records.record(id).hash)
                && db.hash_to_id@[db.records.record(id).hash] == id,
        forall|h: u64| #[trigger]
            db.hash_to_id@.contains_key(h) ==> db.records.lives(db.hash_to_id@[h])
                && db.records.record(db.hash_to_id@[h]).hash == h,
    ensures
        db.sound(),
{
    let all = db.index.bucket_lists();
    assert forall|id: u64| #[trigger] db.records.lives(id) implies db.fits(id) by {
        assert(placed(db.records, db.pq, all, db.next_id, id));
        let (c, i) = choose|c: int, i: int| #[trigger] in_bucket(all, c, i) && all[c][i] == id;
        assert(all[c].contains(all[c][i]));
    }
}

/// One table of hashes belongs to a sound database.
proof fn lemma_hashes_determined(db: LatentDb, h: Map<u64, u64>)
    requires
        db.sound(),
        forall|id: u64| #[trigger]
            db.records.lives(id) ==> h.contains_key(db.records.record(id).hash)
                && h[db.records.record(id).hash] == id,
        forall|x: u64| #[trigger]
            h.contains_key(x) ==> db.records.lives(h[x]) && db.records.record(h[x]).hash == x,
    ensures
        h == db.hash_to_id@,
{
    let k = db.hash_to_id@;
    assert forall|x: u64| #[trigger] h.contains_key(x) <==> k.contains_key(x) by {
        if h.contains_key(x) {
            assert(db.records.lives(h[x]));
            assert(db.fits(h[x]));
        }
        if k.contains_key(x) {
            assert(db.records.lives(k[x]));
        }
    }
    assert forall|x: u64| #[trigger] h.contains_key(x) implies h[x] == k[x] by {
        assert(db.records.lives(h[x]));
        assert(db.fits(h[x]));
    }
    assert(h =~= k);
}

/// A sound database is sound again when it is put together from its parts.
pub proof fn sound_databases_restore(db: LatentDb, restored: LatentDb)
    requires
        db.wf(),
        restored == (LatentDb { merkle_cache: None, ..db }),
    ensures
        db.records.wf(),
        restored.wf(),
        restored.contents() == db.contents(),
{
    assert forall|x: u64| #[trigger] restored.records.lives(x) implies restored.fits(x) by {
        assert(db.records.lives(x));
        assert(db.fits(x));
    }
}

/// The parts of a sound database fit together.
proof fn lemma_sound_is_restorable(db: LatentDb)
    requires
        db.sound(),
    ensures
        db.stored_soundly(),
{
    let all = db.index.bucket_lists();
    lemma_index_is_sorted(db.index, db.records);
    assert forall|id: u64| #[trigger] db.records.lives(id) implies placed(
        db.records,
        db.pq,
        all,
        db.next_id,
        id,
    ) by {
        assert(db.fits(id));
        let c = db.index.assignment@[id] as int;
        assert(all[c].contains(id));
        let i = choose|i: int| 0 <= i < all[c].len() && all[c][i] == id;
        assert(in_bucket(all, c, i));
    }
    assert forall|x: u64, y: u64|
        #![trigger db.records.lives(x), db.records.lives(y)]
        db.records.lives(x) && db.records.lives(y) && db.records.record(x).hash
            == db.records.record(y).hash implies x == y by {
        assert(db.fits(x));
        assert(db.fits(y));
    }
}

} // verus!
