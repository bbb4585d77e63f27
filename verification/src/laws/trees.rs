//! What hash trees commit to, and how region trees branch.

use vstd::prelude::*;
use vstd::utf8::*;

use super::hashes;
use super::reductions;
use crate::arena::Record;
use crate::arith::Arith;
use crate::arith::Noise;
use crate::bandit;
use crate::bandit::growing;
use crate::bandit::Region;
use crate::bandit::RegionTreeConfig;
use crate::bytes;
use crate::db::commitments;
use crate::merkle;
use crate::pq;

verus! {

/// The eight bytes of `x`, the lowest first.
pub open spec fn eight(x: u64) -> Seq<u8> {
    Seq::new(
        8,
        |k: int|
            if k < 4 {
                hashes::byte_of((x % 0x1_0000_0000) as u32, k)
            } else {
                hashes::byte_of((x / 0x1_0000_0000) as u32, k - 4)
            },
    )
}

proof fn lemma_eight(x: u64)
    ensures
        bytes::le8(x) == eight(x),
{
    let low = (x % 0x1_0000_0000) as u32;
    let high = (x / 0x1_0000_0000) as u32;
    assert(low / 0x100_0000 < 0x100 && high / 0x100_0000 < 0x100);
    assert(bytes::le8(x) =~= eight(x));
}

/// The leaf of a record is the hash of a zero byte, the id, the content hash,
/// the codes and the text.
pub proof fn leaves_hash_all_of_a_record(id: u64, record: Record)
    ensures
        merkle::leaf(commitments::leaf_bytes(id, record)) == merkle::blake3_of(
            seq![0u8] + (eight(id) + eight(record.hash) + record.codes + encode_utf8(record.text)),
        )@,
{
    lemma_eight(id);
    lemma_eight(record.hash);
}

/// A level of a hash tree has the hashes of a one byte and two neighbours of
/// the level below; a last one without a neighbour is paired with itself.
pub proof fn levels_hash_neighbours(level: Seq<Seq<u8>>, i: int)
    requires
        0 <= 2 * i < level.len(),
    ensures
        2 * merkle::above(level).len() == level.len() + level.len() % 2,
        2 * i + 1 < level.len() ==> merkle::above(level)[i] == merkle::blake3_of(
            seq![1u8] + level[2 * i] + level[2 * i + 1],
        )@,
        2 * i + 1 == level.len() ==> merkle::above(level)[i] == merkle::blake3_of(
            seq![1u8] + level[2 * i] + level[2 * i],
        )@,
{
}

/// The root over one leaf is that leaf, and over more the root over the next
/// level; over none it is all zero.
pub proof fn roots_come_from_the_top(level: Seq<Seq<u8>>)
    ensures
        level.len() == 0 ==> merkle::root_of(level) == Seq::new(32, |i: int| 0u8),
        level.len() == 1 ==> merkle::root_of(level) == level[0],
        level.len() > 1 ==> merkle::root_of(level) == merkle::root_of(merkle::above(level)),
{
}

/// Records that are too many for a leaf, above the depth allowed, and in at
/// least two clusters, are split: there is a part for every cluster that has
/// records, with the records of that cluster.
pub proof fn regions_split_by_cluster(
    ar: Arith,
    u: Noise,
    records: Seq<(u64, Seq<u32>)>,
    config: RegionTreeConfig,
    depth: int,
) -> (labels: Seq<int>)
    requires
        records.len() > config.min_leaf_size,
        depth < config.max_depth,
        growing::clusters(ar, u, records, config, depth).len() == records.len(),
    ensures
        forall|i: int, j: int| 0 <= i < j < labels.len() ==> labels[i] < labels[j],
        forall|k: int|
            0 <= k < growing::branches(config, records.len() as int) ==> (
            #[trigger] labels.contains(k) <==> reductions::gathering(
                records,
                growing::clusters(ar, u, records, config, depth),
                k,
                records.len(),
            ).len() > 0),
        labels.len() >= 2 ==> ({
            let r = growing::grown(ar, u, records, config, depth);
            &&& r is Inner
            &&& r.children().len() == labels.len()
            &&& forall|i: int|
                0 <= i < labels.len() ==> bandit::leaf_ids(
                    #[trigger] r.children()[i],
                ).to_multiset() == growing::ids_of(
                    reductions::gathering(
                        records,
                        growing::clusters(ar, u, records, config, depth),
                        labels[i],
                        records.len(),
                    ),
                ).to_multiset()
        }),
        labels.len() < 2 ==> growing::grown(ar, u, records, config, depth) == growing::group(
            ar,
            records,
            config.filter_drift_rate,
        ),
{
    let a = growing::clusters(ar, u, records, config, depth);
    let n = growing::branches(config, records.len() as int);
    let labels = reductions::parts_are_the_clusters_that_have_records(records, a, n);
    let split = growing::parts(records, a, n);
    assert forall|k: int| 0 <= k < n implies (#[trigger] labels.contains(k)
        <==> reductions::gathering(records, a, k, records.len()).len() > 0) by {
        if labels.contains(k) {
            let i = choose|i: int| 0 <= i < labels.len() && labels[i] == k;
            assert(split[i].len() > 0);
        }
    }
    if labels.len() >= 2 {
        let r = growing::grown(ar, u, records, config, depth);
        assert(r.children().len() == split.len());
        assert forall|i: int| 0 <= i < labels.len() implies bandit::leaf_ids(
            #[trigger] r.children()[i],
        ).to_multiset() == growing::ids_of(
            reductions::gathering(records, a, labels[i], records.len()),
        ).to_multiset() by {
            assert(0 <= labels[i] < n);
            assert(r.children()[i] == growing::grown(ar, u, split[i], config, depth + 1));
            growing::trees_cover_records(ar, u, split[i], config, depth + 1);
        }
    }
    labels
}

/// A group of records that stay together is a leaf of one, or a region of a
/// leaf for each.
pub proof fn groups_have_a_leaf_for_each(
    ar: Arith,
    records: Seq<(u64, Seq<u32>)>,
    drift: u32,
    i: int,
)
    requires
        0 <= i < records.len(),
    ensures
        records.len() == 1 ==> growing::group(ar, records, drift) == Region::Leaf(
            records[0].0,
            bandit::RegionBelief::initial(drift),
        ),
        records.len() > 1 ==> growing::group(ar, records, drift).children().len()
            == records.len() && growing::group(ar, records, drift).children()[i] == Region::Leaf(
            records[i].0,
            bandit::RegionBelief::initial(drift),
        ),
{
}

/// The seeds of the steps: that of a codebook is the seed plus its number, and
/// that of a split the seed plus the depth plus 1000003, past the largest from
/// zero on again.
pub proof fn seeds_are_offset(seed: u64, s: int)
    requires
        0 <= s,
    ensures
        pq::seed_for(seed, s) == (seed + s) % 0x1_0000_0000_0000_0000,
        growing::cluster_seed(seed, s) == (seed + s + 1_000_003) % 0x1_0000_0000_0000_0000,
{
    let m: int = 0x1_0000_0000_0000_0000;
    let a: int = (seed + s) % m;
    assert((a + 1_000_003) % m == (seed + s + 1_000_003) % m);
}

} // verus!
