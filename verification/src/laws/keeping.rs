//! Which records stay, what lies around an anchor, and what fits on a device.

use vstd::prelude::*;

use super::euclid;
use super::euclid_squared;
use super::graphs;
use super::hashes;
use super::measures;
use super::searches;
use crate::allocations;
use crate::arena;
use crate::arith::Arith;
use crate::arith::Op;
use crate::bytes;
use crate::db;
use crate::db::queries;
use crate::db::LatentDb;
use crate::embedded::steering;
use crate::embedded::storage;
use crate::embedded::topology::Boundary;
use crate::index;
use crate::manifold::graph;
use crate::manifold::graph::GraphView;
use crate::manifold::paths;
use crate::manifold::roaming;
use crate::manifold::wiring;
use crate::order;
use crate::projector::Projector;
use crate::sorting;
use crate::wasm;
use crate::wasm::WasmLatentDb;

verus! {

/// The energy of a record is the squared distance of the projection of what its
/// codes stand for from the centroid of its bucket.
pub proof fn energies_are_distances_from_the_centroid(ar: Arith, db: LatentDb, id: u64)
    requires
        db.wf(),
        db.records.lives(id),
    ensures
        db.energy_of(ar, id) == euclid_squared(
            ar,
            db.projector.projected(ar, db.pq.decoded(db.records.record(id).codes)),
            db.index.centroids@[db.index.assignment@[id] as int]@,
        ),
{
    assert(db.fits(id));
    measures::distances_are_euclidean(
        ar,
        db.projector.projected(ar, db.pq.decoded(db.records.record(id).codes)),
        db.index.centroids@[db.index.assignment@[id] as int]@,
    );
}

/// As many records leave as are beyond the budget, each of them once, and none
/// without a budget; all others stay as they are.
pub proof fn no_more_leave_than_have_to(ar: Arith, before: LatentDb, after: LatentDb) -> (gone: Seq<
    u64,
>)
    requires
        before.wf(),
        before.records.live@.len() <= u64::MAX,
        after.trims(ar, before),
    ensures
        gone.no_duplicates(),
        before.record_budget == 0 ==> gone.len() == 0,
        before.record_budget > 0 ==> gone.len() == if before.records.len > before.record_budget {
            before.records.len - before.record_budget
        } else {
            0
        },
        forall|i: int| 0 <= i < gone.len() ==> before.records.lives(#[trigger] gone[i]),
        forall|id: u64| #[trigger]
            after.contents().contains_key(id) <==> before.contents().contains_key(id)
                && !gone.contains(id),
        forall|id: u64| #[trigger]
            after.contents().contains_key(id) ==> after.contents()[id] == before.contents()[id],
{
    db::lemma_eviction_order(before, ar);
    let gone = before.leaving(ar);
    let all = before.eviction_order(ar);
    assert(gone.no_duplicates());
    assert forall|i: int| 0 <= i < gone.len() implies before.records.lives(#[trigger] gone[i]) by {
        assert(before.records.lives(all[i]));
    }
    assert forall|id: u64| gone.to_set().contains(id) <==> #[trigger] gone.contains(id) by {}
    gone
}

proof fn lemma_no_more_than_there_are(db: LatentDb, ids: Seq<u64>)
    requires
        db.wf(),
        db.records.live@.len() <= u64::MAX,
        ids.no_duplicates(),
        forall|i: int| 0 <= i < ids.len() ==> db.records.lives(#[trigger] ids[i]),
    ensures
        ids.len() <= db.records.len,
{
    let all = db.records.id_list();
    arena::lemma_live_ids(db.records.live@, db.records.live@.len() as int);
    assert forall|id: u64| #[trigger] ids.to_set().contains(id) implies all.to_set().contains(id) by {
        let i = choose|i: int| 0 <= i < ids.len() && ids[i] == id;
        assert(db.records.lives(ids[i]));
        assert(all.contains((id as int) as u64));
    }
    ids.unique_seq_to_set();
    all.lemma_cardinality_of_set();
    vstd::set_lib::lemma_len_subset(ids.to_set(), all.to_set());
}

/// The records, by their distance from the anchor: all of them, each once, and
/// none before a nearer one.
pub proof fn the_nearest_come_first(ar: Arith, w: WasmLatentDb, anchor: Seq<u32>)
    requires
        w.inner.wf(),
        w.inner.answerable(),
        w.inner.index.centroids@.len() <= u64::MAX,
        w.inner.records.live@.len() <= u64::MAX,
        w.inner.candidates(ar, anchor, w.inner.index.centroids@.len() as int).len() <= u64::MAX,
    ensures
        w.nearest(ar, anchor).no_duplicates(),
        forall|id: u64| #[trigger]
            w.nearest(ar, anchor).contains(id) <==> w.inner.records.lives(id),
        forall|i: int, j: int|
            0 <= i < j < w.nearest(ar, anchor).len() ==> order::position(
                euclid(
                    ar,
                    w.inner.approximation(#[trigger] w.nearest(ar, anchor)[i]),
                    anchor,
                ),
            ) <= order::position(
                euclid(
                    ar,
                    w.inner.approximation(#[trigger] w.nearest(ar, anchor)[j]),
                    anchor,
                ),
            ),
{
    let nprobe = w.inner.index.centroids@.len() as int;
    let found = w.found(ar, anchor);
    let all = w.inner.vector_order(ar, anchor, nprobe);
    queries::rankings_have_no_repeats(w.inner, ar, anchor, nprobe);
    lemma_no_more_than_there_are(w.inner, all);
    assert(found =~= all);
    let pairs = w.placed(ar, anchor);
    let ranked = sorting::ranked(pairs);
    let near = w.nearest(ar, anchor);
    assert(all.len() == w.inner.candidates(ar, anchor, nprobe).len()) by {
        sorting::lemma_ranked(
            w.inner.scored(ar, anchor, w.inner.candidates(ar, anchor, nprobe)),
        );
    }
    assert forall|i: int, j: int| 0 <= i < pairs.len() && 0 <= j < pairs.len() && i
        != j implies pairs[i] != pairs[j] by {
        assert(pairs[i].1 == i && pairs[j].1 == j);
    }
    assert(pairs.no_duplicates());
    sorting::lemma_ranked(pairs);
    assert forall|i: int| #![trigger ranked[i]] 0 <= i < ranked.len() implies 0 <= ranked[i].1
        < found.len() && ranked[i] == pairs[ranked[i].1 as int] by {
        assert(ranked.contains(ranked[i]));
        let k = choose|k: int| 0 <= k < pairs.len() && pairs[k] == ranked[i];
        assert(pairs[k].1 == k);
    }
    assert forall|i: int, j: int| 0 <= i < near.len() && 0 <= j < near.len() && i
        != j implies near[i] != near[j] by {
        assert(ranked[i] != ranked[j]);
        assert(ranked[i] == pairs[ranked[i].1 as int]);
        assert(ranked[j] == pairs[ranked[j].1 as int]);
        assert(found[ranked[i].1 as int] != found[ranked[j].1 as int]);
    }
    assert forall|id: u64| #[trigger] near.contains(id) <==> w.inner.records.lives(id) by {
        if near.contains(id) {
            let i = choose|i: int| 0 <= i < near.len() && near[i] == id;
            assert(ranked[i] == pairs[ranked[i].1 as int]);
            assert(w.inner.records.lives(all[ranked[i].1 as int]));
        }
        if w.inner.records.lives(id) {
            queries::exhaustive_search_ranks_all(w.inner, ar, anchor, nprobe, id);
            let k = choose|k: int| 0 <= k < all.len() && all[k] == id;
            assert(pairs[k].1 == k);
            assert(pairs.contains(pairs[k]));
            assert(ranked.contains(pairs[k]));
            let i = choose|i: int| 0 <= i < ranked.len() && ranked[i] == pairs[k];
            assert(near[i] == id);
        }
    }
    assert forall|i: int, j: int| 0 <= i < j < near.len() implies order::position(
        euclid(ar, w.inner.approximation(#[trigger] near[i]), anchor),
    ) <= order::position(euclid(ar, w.inner.approximation(#[trigger] near[j]), anchor)) by {
        assert(sorting::pair_order()(ranked[i], ranked[j]));
        assert(ranked[i] == pairs[ranked[i].1 as int]);
        assert(ranked[j] == pairs[ranked[j].1 as int]);
        measures::distances_are_euclidean(ar, w.inner.approximation(near[i]), anchor);
        measures::distances_are_euclidean(ar, w.inner.approximation(near[j]), anchor);
        order::position_is_total(
            w.distance_to(ar, anchor, near[i]),
            w.distance_to(ar, anchor, near[j]),
        );
    }
}

/// A neighbourhood reaches a little beyond the last of the records that it is
/// to hold: as many as asked for, but at least one and at most all. Without
/// records it reaches without end.
pub proof fn neighborhoods_reach_the_last_record(
    ar: Arith,
    w: WasmLatentDb,
    anchor: Seq<u32>,
    size: int,
    last: int,
)
    requires
        w.nearest(ar, anchor).len() > 0 ==> 0 <= last < w.nearest(ar, anchor).len(),
        size < 1 ==> last == 0,
        size >= 1 ==> last == size - 1 || (last < size - 1 && last == w.nearest(ar, anchor).len()
            - 1),
    ensures
        w.nearest(ar, anchor).len() == 0 ==> w.reach(ar, anchor, size) == 0x7f80_0000,
        w.nearest(ar, anchor).len() > 0 ==> w.reach(ar, anchor, size) == ar(
            Op::Add,
            euclid(ar, w.inner.approximation(w.nearest(ar, anchor)[last]), anchor),
            0x38d1_b717,
            0,
        ),
{
    let near = w.nearest(ar, anchor);
    if near.len() > 0 {
        measures::distances_are_euclidean(ar, w.inner.approximation(near[last]), anchor);
        assert(wasm::extent(size, near.len() as int) == last + 1);
    }
}

/// A neighbourhood holds what is no farther from the anchor than it reaches.
pub proof fn neighborhoods_are_balls(ar: Arith, anchor: Seq<u32>, radius: u32, v: Seq<u32>)
    ensures
        wasm::around(ar, anchor, radius)(v) == order::le(euclid(ar, v, anchor), radius),
{
    measures::distances_are_euclidean(ar, v, anchor);
}

proof fn lemma_members_so_far(g: GraphView, ids: Seq<u64>, n: int)
    requires
        0 <= n <= ids.len(),
    ensures
        wasm::members(g, ids, n) == ids.take(n).filter(|id: u64| g.has(id)),
    decreases n,
{
    reveal(Seq::filter);
    if n > 0 {
        lemma_members_so_far(g, ids, n - 1);
        assert(ids.take(n).drop_last() =~= ids.take(n - 1));
        assert(ids.take(n).last() == ids[n - 1]);
    } else {
        assert(ids.take(0) =~= Seq::<u64>::empty());
    }
}

/// An exploration starts from those of the records that are nodes, in the same
/// order.
pub proof fn explorations_keep_the_nodes(g: GraphView, ids: Seq<u64>)
    ensures
        wasm::members(g, ids, ids.len() as int) == ids.filter(|id: u64| g.has(id)),
{
    lemma_members_so_far(g, ids, ids.len() as int);
    assert(ids.take(ids.len() as int) =~= ids);
}

/// A number that is read from bytes has these bytes, the lowest first.
pub proof fn words_are_little_endian(s: Seq<u8>, at: int, k: int)
    requires
        0 <= at,
        at + 4 <= s.len(),
        0 <= k < 4,
    ensures
        hashes::byte_of(bytes::word(s, at), k) == s[at + k],
{
    let x = bytes::word(s, at);
    let (a, b, c, d) = (s[at], s[at + 1], s[at + 2], s[at + 3]);
    assert(x == a + 0x100 * b + 0x1_0000 * c + 0x100_0000 * d);
    assert(x % 0x100 == a);
    assert(x / 0x100 == b + 0x100 * c + 0x1_0000 * d);
    assert(x / 0x1_0000 == c + 0x100 * d);
    assert(x / 0x100_0000 == d);
}

/// A step moves every coordinate by the strength times that of the direction.
pub proof fn steps_move_every_coordinate(
    ar: Arith,
    state: Seq<u32>,
    direction: Seq<u32>,
    alpha: u32,
    i: int,
)
    requires
        0 <= i < state.len(),
    ensures
        steering::stepped(ar, state, direction, alpha).len() == state.len(),
        steering::stepped(ar, state, direction, alpha)[i] == ar(
            Op::Add,
            state[i],
            ar(Op::Mul, alpha, direction[i], 0),
            0,
        ),
{
}

/// A boundary holds a vector if no coordinate is below its lower or above its
/// upper end.
pub proof fn boundaries_hold_every_coordinate(boundary: Boundary, v: Seq<u32>)
    ensures
        boundary.encloses(v) <==> forall|i: int|
            0 <= i < v.len() ==> order::le(boundary.min, #[trigger] v[i]) && order::le(
                v[i],
                boundary.max,
            ),
{
    assert forall|i: int| 0 <= i < v.len() && boundary.encloses(v) implies order::le(
        boundary.min,
        #[trigger] v[i],
    ) && order::le(v[i], boundary.max) by {
        assert(boundary.admits(v[i]));
    }
    if forall|i: int|
        0 <= i < v.len() ==> order::le(boundary.min, #[trigger] v[i]) && order::le(
            v[i],
            boundary.max,
        ) {
        assert forall|i: int| 0 <= i < v.len() implies boundary.admits(#[trigger] v[i]) by {
            assert(order::le(boundary.min, v[i]));
        }
    }
}

/// The inverse of a root is guessed from the bits, and refined by Newton's
/// steps.
pub proof fn inverse_roots_are_refined_by_newton(ar: Arith, x: u32, n: int)
    requires
        0 <= n,
        x / 2 <= 0x5f37_59df,
    ensures
        storage::inverse_root(ar, x, 0) == 0x5f37_59df - x / 2,
        ({
            let y = storage::inverse_root(ar, x, n);
            storage::inverse_root(ar, x, n + 1) == ar(
                Op::Mul,
                y,
                ar(
                    Op::Sub,
                    0x3fc0_0000,
                    ar(Op::Mul, ar(Op::Mul, ar(Op::Mul, 0x3f00_0000, x, 0), y, 0), y, 0),
                    0,
                ),
                0,
            )
        }),
{
}

/// Counts of allocations start again from zero past the largest one.
pub proof fn counts_wrap_around(a: usize, b: usize)
    ensures
        allocations::wrapped(a + b) == (a + b) % (usize::MAX + 1),
{
    if a + b > usize::MAX {
        let m: int = usize::MAX + 1;
        assert((a + b) % m == (a + b) - m) by (nonlinear_arith)
            requires
                m <= a + b < 2 * m,
        ;
    } else {
        let m: int = usize::MAX + 1;
        assert((a + b) % m == a + b) by (nonlinear_arith)
            requires
                0 <= a + b < m,
        ;
    }
}

/// How numbers compare, by their bit patterns: a NaN with nothing, both zeros
/// alike, positive numbers as their patterns and negative ones the other way.
pub proof fn numbers_compare_by_their_patterns(a: u32, b: u32)
    ensures
        ({
            let nan_a = a % 0x8000_0000 > 0x7f80_0000;
            let nan_b = b % 0x8000_0000 > 0x7f80_0000;
            let x = if a < 0x8000_0000 {
                a as int
            } else {
                0x8000_0000 - a
            };
            let y = if b < 0x8000_0000 {
                b as int
            } else {
                0x8000_0000 - b
            };
            &&& order::lt(a, b) <==> !nan_a && !nan_b && x < y
            &&& order::le(a, b) <==> !nan_a && !nan_b && x <= y
        }),
{
}

/// The total order of bit patterns: positive ones as they are, negative ones
/// the other way and before them.
pub proof fn positions_follow_the_patterns(a: u32, b: u32)
    ensures
        order::position(a) <= order::position(b) <==> (if a < 0x8000_0000 {
            a as int
        } else {
            0x7fff_ffff - a
        }) <= (if b < 0x8000_0000 {
            b as int
        } else {
            0x7fff_ffff - b
        }),
{
}

proof fn lemma_dropped(s: Seq<u64>, gone: Set<u64>)
    ensures
        index::dropped(s, gone) == s.filter(|id: u64| !gone.contains(id)),
    decreases s.len(),
{
    reveal(Seq::filter);
    if s.len() > 0 {
        lemma_dropped(s.drop_last(), gone);
    }
}

/// Records that leave are gone from their buckets; the others stay there, in
/// their order.
pub proof fn buckets_lose_only_what_leaves(buckets: Seq<Seq<u64>>, gone: Set<u64>, c: int)
    requires
        0 <= c < buckets.len(),
    ensures
        index::thinned(buckets, gone).len() == buckets.len(),
        index::thinned(buckets, gone)[c] == buckets[c].filter(|id: u64| !gone.contains(id)),
{
    lemma_dropped(buckets[c], gone);
}

/// Removing a record leaves all others as they are: their contents, and the
/// buckets that they are in.
pub proof fn removals_leave_the_others(before: LatentDb, after: LatentDb, id: u64, other: u64)
    requires
        after.loses(before, id),
    ensures
        !after.contents().contains_key(id),
        !after.index.assignment@.contains_key(id),
        other != id ==> after.contents().contains_key(other) == before.contents().contains_key(other),
        other != id && before.contents().contains_key(other) ==> after.contents()[other]
            == before.contents()[other],
        other != id && before.index.assignment@.contains_key(other)
            ==> after.index.assignment@.contains_key(other) && after.index.assignment@[other]
            == before.index.assignment@[other],
        after.next_id == before.next_id,
        after.records.len == before.records.len - (if before.contents().contains_key(id) {
            1int
        } else {
            0int
        }),
{
}

/// The centroids of an index are learned from the projections of the training
/// vectors, one of each.
pub proof fn every_training_vector_is_projected(
    ar: Arith,
    p: Projector,
    training: Seq<Seq<u32>>,
    i: int,
)
    requires
        0 <= i < training.len(),
    ensures
        db::projections(ar, p, training).len() == training.len(),
        db::projections(ar, p, training)[i] == p.projected(ar, training[i]),
{
}

/// Storage that has the slots needed stays as it is. Otherwise it grows to the
/// largest of what is needed, twice what it had as far as that can be counted,
/// and sixteen.
pub proof fn storage_doubles(capacity: usize, needed: usize, other: int)
    requires
        other == needed || other == 16 || other == 2 * capacity || other == usize::MAX,
        other <= usize::MAX,
        other == usize::MAX ==> 2 * capacity >= usize::MAX || needed == usize::MAX,
    ensures
        capacity >= needed ==> arena::capacity_for(capacity as int, needed as int) == capacity,
        capacity < needed ==> arena::capacity_for(capacity as int, needed as int) >= other,
        capacity < needed ==> ({
            let c = arena::capacity_for(capacity as int, needed as int);
            c == needed || c == 16 || c == 2 * capacity || (c == usize::MAX && 2 * capacity
                > usize::MAX)
        }),
{
}

/// `stop` is the record `id`, with its metadata if it is stored.
pub open spec fn stops_at(w: WasmLatentDb, stop: wasm::Stop, id: u64) -> bool {
    &&& stop.id == id
    &&& stop.metadata is Some <==> w.inner.contents().contains_key(id)
    &&& stop.metadata is Some ==> stop.metadata->0@ == w.inner.contents()[id].text
}

/// An exploration wires the records within its reach. Its walk starts at the
/// nearest of them and takes the steps asked for; its path leads from the
/// nearest to the next one. Every stop has the metadata of its record.
pub proof fn explorations_start_from_the_nearest(
    ar: Arith,
    w: WasmLatentDb,
    anchor: Seq<u32>,
    size: int,
    k_nearest: int,
    steps: int,
    seed: u64,
    g: GraphView,
    e: wasm::Exploration,
)
    requires
        w.reports(ar, anchor, size, k_nearest, steps, seed, g, e),
        0 <= steps,
    ensures
        e.radius == w.reach(ar, anchor, size),
        wiring::connects(
            ar,
            wasm::around(ar, anchor, e.radius),
            w.inner.points(),
            k_nearest,
            false,
            g,
        ),
        e.n_nodes == g.ids.len(),
        e.n_edges == g.adj.fold_left(0int, |sum: int, near: Seq<u32>| sum + near.len()) / 2,
        ({
            let ids = w.nearest(ar, anchor).filter(|id: u64| g.has(id));
            let walk = e.random_walk@;
            &&& ids.len() == 0 ==> walk.len() == 0
            &&& ids.len() > 0 ==> walk.len() == steps + 1 && stops_at(w, walk[0], ids[0])
            &&& ids.len() > 0 ==> forall|i: int|
                0 <= i < walk.len() ==> stops_at(
                    w,
                    #[trigger] walk[i],
                    g.ids[roaming::roamed(g, g.node(ids[0]), seed, steps)[i]],
                )
            &&& e.geodesic is Some ==> ({
                let found = e.geodesic->0;
                let path = found.path@;
                &&& ids.len() >= 2
                &&& found.from == ids[0]
                &&& found.to == ids[1]
                &&& found.hops + 1 == path.len()
                &&& stops_at(w, path[0], ids[0])
                &&& stops_at(w, path.last(), ids[1])
            })
        }),
{
    let near = w.nearest(ar, anchor);
    let ids = near.filter(|id: u64| g.has(id));
    explorations_keep_the_nodes(g, near);
    graphs::degrees_add_up(g);
    let walk = e.random_walk@;
    assert forall|i: int| 0 <= i < ids.len() implies g.has(#[trigger] ids[i]) by {
        near.lemma_filter_pred(|id: u64| g.has(id), i);
    }
    if ids.len() > 0 {
        let start = g.node(ids[0]);
        graph::lemma_last(g, ids[0]);
        let p = roaming::roamed(g, start, seed, steps);
        graphs::lemma_roamed(g, start, seed, steps, steps);
        let all = paths::visited(g, p);
        assert(wasm::stop_ids(walk).len() == walk.len());
        assert forall|i: int| 0 <= i < walk.len() implies stops_at(
            w,
            #[trigger] walk[i],
            g.ids[p[i]],
        ) by {
            assert(wasm::stop_ids(walk)[i] == all[i]);
            assert(w.noted(walk[i]));
        }
        assert(stops_at(w, walk[0], g.ids[p[0]]));
    }
    if e.geodesic is Some {
        let found = e.geodesic->0;
        let path = found.path@;
        let stops = wasm::stop_ids(path);
        let s = g.node(ids[0]);
        let t = g.node(ids[1]);
        assert(g.has(ids[0]) && g.has(ids[1]));
        graph::lemma_last(g, ids[0]);
        graph::lemma_last(g, ids[1]);
        let p = choose|p: Seq<int>| #[trigger] paths::leads(ar, g, s, t, stops, p);
        assert(stops == paths::visited(g, p));
        assert(p.len() > 0);
        assert(stops[0] == g.ids[p[0]]);
        assert(stops.last() == g.ids[p.last()]);
        assert(w.noted(path[0]));
        assert(w.noted(path[path.len() - 1]));
    }
}

/// A record is stored in the bucket of the centroid that is nearest to its
/// projection, the first of those that are equally near.
pub proof fn stored_records_are_near_their_centroid(
    ar: Arith,
    before: LatentDb,
    after: LatentDb,
    v: Seq<u32>,
    metadata: Seq<char>,
    e: int,
)
    requires
        before.wf(),
        before.index.centroids@.len() <= usize::MAX,
        after.stores(ar, before, v, metadata),
        0 <= e < before.index.centroids@.len(),
        order::lt(
            euclid_squared(
                ar,
                before.index.centroids@[e]@,
                before.projector.projected(ar, v),
            ),
            0x7f7f_ffff,
        ),
    ensures
        after.index.assignment@.contains_key(before.next_id),
        ({
            let c = after.index.assignment@[before.next_id] as int;
            let x = before.projector.projected(ar, v);
            let mine = euclid_squared(ar, before.index.centroids@[c]@, x);
            let other = euclid_squared(ar, before.index.centroids@[e]@, x);
            &&& 0 <= c < before.index.centroids@.len()
            &&& order::le(mine, other)
            &&& e < c ==> order::lt(mine, other)
            &&& after.index.bucket_lists()[c].last() == before.next_id
        }),
{
    searches::records_go_to_the_nearest_centroid(
        ar,
        before.index,
        before.projector.projected(ar, v),
        e,
    );
}

} // verus!
