//! The database: records live as codes, are found through the index, and are
//! committed to by a Merkle tree.

use std::collections::HashMap;
use vstd::prelude::*;
use vstd::utf8::encode_utf8;

use crate::arena::Record;
use crate::arena::RecordArena;
use crate::arith;
use crate::arith::Arith;
use crate::arith::Op;
use crate::bytes;
use crate::clustering;
use crate::index;
use crate::index::CentroidIndex;
use crate::order;
use crate::pq;
use crate::pq::PqCodec;
use crate::projector;
use crate::projector::Projector;
use crate::sorting;
use crate::vectors;
use crate::vectors::rows;

pub mod commitments;
pub mod queries;
pub mod restoring;

use commitments::MerkleCache;

verus! {

/// Which records leave first when there are more than the budget allows.
#[derive(Debug, Clone, Copy, PartialEq, Eq, Structural)]
pub enum EvictionPolicy {
    /// The oldest: ascending ids.
    OldestFirst,
    /// Those nearest to the centroid of their bucket.
    LowestEnergy,
}

/// What can go wrong.
#[derive(Debug)]
pub enum LatentDbError {
    /// Reading or writing failed.
    Io(String),
    /// The stored form could not be written or read, or its records do not fit
    /// together.
    Serialize(String),
    /// A vector has the wrong number of coordinates.
    DimMismatch { expected: usize, got: usize },
}

/// The value that content hashing starts from.
pub const FNV_OFFSET: u64 = 0xcbf2_9ce4_8422_2325;

/// The factor of content hashing.
pub const FNV_PRIME: u64 = 0x100_0000_01b3;

/// The FNV-1a hash of the first `n` bytes.
pub open spec fn fnv(bytes: Seq<u8>, n: int) -> u64
    decreases n,
{
    if n <= 0 {
        FNV_OFFSET
    } else {
        (((fnv(bytes, n - 1) ^ (bytes[n - 1] as u64)) * FNV_PRIME) % 0x1_0000_0000_0000_0000) as u64
    }
}

/// The content hash of a vector: over the bytes of its coordinates.
pub open spec fn content_hash(v: Seq<u32>) -> u64 {
    fnv(bytes::flat(v, v.len() as int), bytes::flat(v, v.len() as int).len() as int)
}

/// A database of vectors.
pub struct LatentDb {
    pub dim: usize,
    pub projector: Projector,
    pub pq: PqCodec,
    pub index: CentroidIndex,
    pub records: RecordArena,
    pub hash_to_id: HashMap<u64, u64>,
    pub next_id: u64,
    /// The most records to keep; zero for no limit.
    pub record_budget: usize,
    pub eviction_policy: EvictionPolicy,
    /// The Merkle tree over the records, if it has been built since they
    /// last changed.
    pub merkle_cache: Option<MerkleCache>,
}

/// The second components of a list of pairs.
pub open spec fn seconds(s: Seq<(u64, u64)>) -> Seq<u64> {
    Seq::new(s.len(), |i: int| s[i].1)
}

impl LatentDb {
    /// The records by id.
    pub open spec fn contents(&self) -> Map<u64, Record> {
        self.records.contents()
    }

    /// The parts fit together.
    pub open spec fn wf(&self) -> bool {
        &&& self.sound()
        &&& self.cache_fits()
    }

    /// The Merkle tree that is kept, if any, is the one over the records.
    pub open spec fn cache_fits(&self) -> bool {
        self.merkle_cache is Some ==> self.merkle_cache->0.covers(self.records)
    }

    /// The parts other than the kept tree fit together: every record has codes
    /// that can be decoded, a bucket, and its content hash to itself, and its
    /// id has been given out.
    pub open spec fn sound(&self) -> bool {
        &&& self.parts_fit()
        &&& forall|id: u64| #[trigger] self.records.lives(id) ==> self.fits(id)
        &&& forall|id: u64| #[trigger]
            self.index.assignment@.contains_key(id) ==> self.records.lives(id)
        &&& forall|h: u64| #[trigger]
            self.hash_to_id@.contains_key(h) ==> self.records.lives(self.hash_to_id@[h])
                && self.records.record(self.hash_to_id@[h]).hash == h
    }

    /// What reading the vectors of the records rests on: every record has codes
    /// that can be decoded.
    pub open spec fn readable(&self) -> bool {
        &&& self.pq.wf()
        &&& self.records.wf()
        &&& self.pq.dim == self.dim
        &&& self.records.code_len == self.pq.n_subspaces
        &&& forall|id: u64| #[trigger]
            self.records.lives(id) ==> pq::decodable(
                self.pq.books(),
                self.records.record(id).codes,
            )
    }

    /// What searching rests on: the records can be read, the parts fit, and the
    /// index names records only. Neither the content hashes nor the kept tree
    /// matter for it.
    pub open spec fn answerable(&self) -> bool {
        &&& self.readable()
        &&& self.parts_fit()
        &&& forall|id: u64| #[trigger]
            self.index.assignment@.contains_key(id) ==> self.records.lives(id)
    }

    /// The parts are sound, and have matching sizes.
    pub open spec fn parts_fit(&self) -> bool {
        &&& self.projector.wf()
        &&& self.pq.wf()
        &&& self.index.wf()
        &&& self.index.tight()
        &&& self.records.wf()
        &&& self.pq.dim == self.dim
        &&& self.projector.in_dim == self.dim
        &&& self.records.code_len == self.pq.n_subspaces
    }

    /// What holds of every record.
    pub open spec fn fits(&self, id: u64) -> bool {
        let record = self.records.record(id);
        &&& pq::decodable(self.pq.books(), record.codes)
        &&& self.index.assignment@.contains_key(id)
        &&& self.hash_to_id@.contains_key(record.hash)
        &&& self.hash_to_id@[record.hash] == id
        &&& id < self.next_id
    }

    /// There are no more records than the budget allows.
    pub open spec fn within_budget(&self) -> bool {
        self.record_budget == 0 || self.records.len <= self.record_budget
    }

    /// The vector that the codes of a record stand for.
    pub open spec fn approximation(&self, id: u64) -> Seq<u32> {
        self.pq.decoded(self.records.record(id).codes)
    }

    /// How far a record is from the centroid of its bucket: what is near is
    /// like much else there, and is missed least.
    pub open spec fn energy_of(&self, ar: Arith, id: u64) -> u32 {
        if self.index.assignment@.contains_key(id) && self.records.lives(id) {
            vectors::squared_distance(
                ar,
                self.projector.projected(ar, self.approximation(id)),
                self.index.centroids@[self.index.assignment@[id] as int]@,
            )
        } else {
            order::LARGEST
        }
    }

    /// The records under their energies, in order of their ids.
    pub open spec fn energies(&self, ar: Arith) -> Seq<(u64, u64)> {
        let ids = self.records.id_list();
        Seq::new(
            ids.len(),
            |i: int| (order::position_key(self.energy_of(ar, ids[i])) as u64, ids[i]),
        )
    }

    /// The records in the order in which they leave.
    pub open spec fn eviction_order(&self, ar: Arith) -> Seq<u64> {
        match self.eviction_policy {
            EvictionPolicy::OldestFirst => self.records.id_list(),
            EvictionPolicy::LowestEnergy => seconds(sorting::ranked(self.energies(ar))),
        }
    }

    /// How many records are beyond the budget.
    pub open spec fn excess(&self) -> int {
        if self.record_budget == 0 || self.records.len <= self.record_budget {
            0
        } else {
            self.records.len - self.record_budget
        }
    }

    /// The records that leave.
    pub open spec fn leaving(&self, ar: Arith) -> Seq<u64> {
        self.eviction_order(ar).take(self.excess())
    }

    /// Nothing but the records, their buckets and their hashes differs from
    /// `other`.
    pub open spec fn same_setup(&self, other: LatentDb) -> bool {
        &&& self.dim == other.dim
        &&& self.projector == other.projector
        &&& self.pq == other.pq
        &&& self.index.centroids@ == other.index.centroids@
        &&& self.record_budget == other.record_budget
        &&& self.eviction_policy == other.eviction_policy
    }

    /// This is `before` with one more record.
    pub open spec fn stores(
        &self,
        ar: Arith,
        before: LatentDb,
        embedding: Seq<u32>,
        metadata: Seq<char>,
    ) -> bool {
        let id = before.next_id;
        let bucket = before.index.nearest(ar, before.projector.projected(ar, embedding));
        &&& self.wf()
        &&& self.same_setup(before)
        &&& self.next_id == id + 1
        &&& self.contents() == before.contents().insert(
            id,
            Record {
                hash: content_hash(embedding),
                codes: before.pq.encoded(ar, embedding),
                text: metadata,
            },
        )
        &&& self.index.assignment@ == before.index.assignment@.insert(id, bucket as usize)
        &&& self.index.bucket_lists() == before.index.bucket_lists().update(
            bucket,
            before.index.bucket_lists()[bucket].push(id),
        )
        &&& self.records.len == before.records.len + 1
    }

    /// This is `before` without the records that have to leave it.
    pub open spec fn trims(&self, ar: Arith, before: LatentDb) -> bool {
        &&& self.wf()
        &&& self.within_budget()
        &&& self.same_setup(before)
        &&& self.next_id == before.next_id
        &&& self.contents() == before.contents().remove_keys(before.leaving(ar).to_set())
        &&& self.index.assignment@ == before.index.assignment@.remove_keys(
            before.leaving(ar).to_set(),
        )
        &&& self.index.bucket_lists() == index::thinned(
            before.index.bucket_lists(),
            before.leaving(ar).to_set(),
        )
        &&& self.records.len == before.records.len - before.excess()
    }

    /// This is `before` without the record `id`, if it had it.
    pub open spec fn loses(&self, before: LatentDb, id: u64) -> bool {
        &&& self.wf()
        &&& self.same_setup(before)
        &&& self.next_id == before.next_id
        &&& self.contents() == before.contents().remove(id)
        &&& self.index.assignment@ == before.index.assignment@.remove(id)
        &&& self.index.bucket_lists() == index::thinned(before.index.bucket_lists(), set![id])
        &&& self.records.len == before.records.len - if before.records.lives(id) {
            1int
        } else {
            0int
        }
    }

    /// This is `before` with one more record, and without those that have to
    /// leave it then.
    pub open spec fn gains(
        &self,
        ar: Arith,
        before: LatentDb,
        embedding: Seq<u32>,
        metadata: Seq<char>,
    ) -> bool {
        exists|mid: LatentDb|
            mid.stores(ar, before, embedding, metadata) && #[trigger] self.trims(ar, mid)
    }

    /// A database with no records. The training vectors serve to learn the
    /// codebooks and the centroids of the index.
    pub fn build<F: Fn(Op, u32, u32, u32) -> u32, U: Fn(u64, u64) -> u32>(
        fpu: &F,
        uniform: &U,
        training_vectors: &Vec<Vec<u32>>,
        n_subspaces: usize,
        n_pq_centroids: usize,
        n_index_centroids: usize,
        sketch_dim: usize,
        seed: u64,
    ) -> (r: Self)
        requires
            arith::is_unit(*fpu),
            arith::is_source(*uniform),
            training_vectors@.len() > 0,
            clustering::even(rows(training_vectors@), training_vectors@[0]@.len() as int),
            n_subspaces > 0,
            training_vectors@[0]@.len() % n_subspaces as nat == 0,
            n_subspaces * n_pq_centroids <= u32::MAX,
            n_subspaces <= u32::MAX,
            2 * (training_vectors@[0]@.len() * sketch_dim) <= usize::MAX,
        ensures
            r.wf(),
            r.within_budget(),
            r.contents() == Map::<u64, Record>::empty(),
            r.dim == training_vectors@[0]@.len(),
            r.next_id == 0,
            r.record_budget == 0,
            r.eviction_policy == EvictionPolicy::OldestFirst,
            r.projector.out_dim == sketch_dim,
            r.projector.matrix@ == projector::fresh_matrix(
                arith::arith(*fpu),
                arith::noise(*uniform),
                r.dim as int,
                sketch_dim as int,
                pq::seed_for(seed, 1),
            ),
            r.pq.n_subspaces == n_subspaces,
            forall|s: int|
                0 <= s < n_subspaces ==> #[trigger] r.pq.books()[s] == clustering::centroids_of(
                    arith::arith(*fpu),
                    pq::pieces(rows(training_vectors@), r.pq.sub_dim as int, s),
                    n_pq_centroids as int,
                    15,
                    pq::seed_for(seed, s),
                ),
            rows(r.index.centroids@) == clustering::centroids_of(
                arith::arith(*fpu),
                projections(arith::arith(*fpu), r.projector, rows(training_vectors@)),
                n_index_centroids as int,
                15,
                pq::seed_for(seed, 2),
            ),
    {
        let ghost ar = arith::arith(*fpu);
        let ghost data = rows(training_vectors@);
        let dim: usize = training_vectors[0].len();
        assert(data[0] == training_vectors@[0]@);
        let pq: PqCodec = PqCodec::train(
            fpu,
            training_vectors,
            n_subspaces,
            n_pq_centroids,
            15,
            seed,
        );
        assert(pq::seed_for(seed, 1) == seed.wrapping_add(1));
        assert(pq::seed_for(seed, 2) == seed.wrapping_add(2));
        let projector: Projector = Projector::new(
            fpu,
            uniform,
            dim,
            sketch_dim,
            seed.wrapping_add(1),
        );
        let mut projected: Vec<Vec<u32>> = Vec::new();
        let mut i: usize = 0;
        let ghost target = projections(ar, projector, data);
        while i < training_vectors.len()
            invariant
                i <= training_vectors@.len(),
                arith::is_unit(*fpu),
                ar == arith::arith(*fpu),
                data == rows(training_vectors@),
                clustering::even(data, dim as int),
                projector.wf(),
                projector.in_dim == dim,
                target == projections(ar, projector, data),
                projected@.len() == i,
                forall|j: int| 0 <= j < i ==> (#[trigger] projected@[j])@ == target[j],
            decreases training_vectors@.len() - i,
        {
            assert(data[i as int] == training_vectors@[i as int]@);
            projected.push(projector.project(fpu, &training_vectors[i]));
            i += 1;
        }
        assert(rows(projected@) =~= target);
        let index: CentroidIndex = CentroidIndex::train(
            fpu,
            &projected,
            n_index_centroids,
            15,
            seed.wrapping_add(2),
        );
        let records: RecordArena = RecordArena::new(pq.code_len());
        let r: LatentDb = LatentDb {
            dim,
            projector,
            pq,
            index,
            records,
            hash_to_id: HashMap::new(),
            next_id: 0,
            record_budget: 0,
            eviction_policy: EvictionPolicy::OldestFirst,
            merkle_cache: None,
        };
        r
    }

    /// The number of coordinates of a vector.
    pub fn dim(&self) -> (r: usize)
        ensures
            r == self.dim,
    {
        self.dim
    }

    fn hash_vector(v: &[u32]) -> (r: u64)
        ensures
            r == content_hash(v@),
    {
        let mut all: Vec<u8> = Vec::new();
        bytes::push_flat(&mut all, v);
        assert(all@ =~= bytes::flat(v@, v@.len() as int));
        let mut hash: u64 = FNV_OFFSET;
        let mut i: usize = 0;
        while i < all.len()
            invariant
                i <= all@.len(),
                hash == fnv(all@, i as int),
            decreases all@.len() - i,
        {
            hash = (hash ^ (all[i] as u64)).wrapping_mul(FNV_PRIME);
            i += 1;
        }
        hash
    }

    /// Stores a vector with its metadata and gives back its id. The same
    /// vector is not stored twice: it keeps the id and the metadata that it
    /// has. Records beyond the budget leave.
    pub fn insert<F: Fn(Op, u32, u32, u32) -> u32>(
        &mut self,
        fpu: &F,
        embedding: &[u32],
        metadata: String,
    ) -> (r: Result<u64, LatentDbError>)
        requires
            arith::is_unit(*fpu),
            old(self).wf(),
            old(self).takes(embedding@, metadata@),
        ensures
            final(self).wf(),
            old(self).within_budget() ==> final(self).within_budget(),
            embedding@.len() != old(self).dim ==> r == Err::<u64, LatentDbError>(
                LatentDbError::DimMismatch {
                    expected: old(self).dim,
                    got: embedding@.len() as usize,
                },
            ) && *final(self) == *old(self),
            embedding@.len() == old(self).dim && old(self).hash_to_id@.contains_key(
                content_hash(embedding@),
            ) ==> r == Ok::<u64, LatentDbError>(
                old(self).hash_to_id@[content_hash(embedding@)],
            ) && *final(self) == *old(self),
            embedding@.len() == old(self).dim && !old(self).hash_to_id@.contains_key(
                content_hash(embedding@),
            ) ==> r == Ok::<u64, LatentDbError>(old(self).next_id) && final(self).gains(
                arith::arith(*fpu),
                *old(self),
                embedding@,
                metadata@,
            ),
    {
        broadcast use vstd::std_specs::hash::group_hash_axioms;

        if embedding.len() != self.dim {
            return Err(LatentDbError::DimMismatch { expected: self.dim, got: embedding.len() });
        }
        let hash: u64 = Self::hash_vector(embedding);
        let known: Option<u64> = match self.hash_to_id.get(&hash) {
            Some(id) => Some(*id),
            None => None,
        };
        if let Some(existing) = known {
            return Ok(existing);
        }
        let ghost ar = arith::arith(*fpu);
        let ghost a = *self;
        let id: u64 = self.next_id;
        self.next_id = id + 1;
        let projected: Vec<u32> = self.projector.project(fpu, embedding);
        proof {
            if a.records.lives(id) {
                assert(a.fits(id));
            }
            if a.index.assignment@.contains_key(id) {
                assert(a.records.lives(id));
            }
        }
        self.index.insert(fpu, id, &projected);
        let codes: Vec<u8> = self.pq.encode(fpu, embedding);
        self.records.insert(id, hash, metadata.as_str(), &codes);
        self.hash_to_id.insert(hash, id);
        self.invalidate_merkle_cache();
        let ghost mid = *self;
        proof {
            lemma_stored(ar, a, mid, embedding@, metadata@);
        }
        self.enforce_budget(fpu);
        proof {
            assert(mid.stores(ar, a, embedding@, metadata@));
            assert(self.trims(ar, mid));
        }
        Ok(id)
    }

    /// Nothing needs to be stored for `embedding`, or there is room for it with
    /// the given metadata.
    pub open spec fn takes(&self, embedding: Seq<u32>, metadata: Seq<char>) -> bool {
        embedding.len() == self.dim && !self.hash_to_id@.contains_key(content_hash(embedding))
            ==> self.records.has_room(self.next_id, encode_utf8(metadata).len() as int)
    }

    /// Whether nothing needs to be stored for `embedding`, or there is room for
    /// it with the given metadata.
    pub fn can_store(&self, embedding: &[u32], metadata: &str) -> (r: bool)
        ensures
            r == self.takes(embedding@, metadata@),
    {
        broadcast use vstd::std_specs::hash::group_hash_axioms;

        if embedding.len() != self.dim {
            return true;
        }
        let hash: u64 = Self::hash_vector(embedding);
        if self.hash_to_id.contains_key(&hash) {
            return true;
        }
        self.records.can_hold(self.next_id, metadata.as_bytes().len())
    }

    /// Removes a record; nothing changes if it is not stored.
    pub fn remove(&mut self, id: u64)
        requires
            old(self).wf(),
        ensures
            final(self).loses(*old(self), id),
            forall|x: u64| #[trigger]
                final(self).records.lives(x) <==> x != id && old(self).records.lives(x),
    {
        broadcast use vstd::std_specs::hash::group_hash_axioms;

        let ghost a = *self;
        match self.records.remove(id) {
            Some(hash) => {
                assert(a.fits(id));
                self.hash_to_id.remove(&hash);
                self.index.remove(id);
                self.invalidate_merkle_cache();
                proof {
                    index::lemma_thinned(a.index, self.index.bucket_lists(), id);
                    let b = *self;
                    assert forall|x: u64| #[trigger] b.records.lives(x) implies b.fits(x) by {
                        assert(a.records.lives(x));
                        assert(a.fits(x));
                        assert(b.contents()[x] == a.contents()[x]);
                        assert(b.records.record(x) == a.records.record(x));
                        assert(a.contents()[id].hash == hash);
                    }
                    assert forall|x: u64| #[trigger]
                        b.index.assignment@.contains_key(x) implies b.records.lives(x) by {
                        assert(a.index.assignment@.contains_key(x));
                        assert(a.records.lives(x));
                    }
                    assert forall|h: u64| #[trigger]
                        b.hash_to_id@.contains_key(h) implies b.records.lives(b.hash_to_id@[h])
                        && b.records.record(b.hash_to_id@[h]).hash == h by {
                        assert(a.hash_to_id@.contains_key(h));
                        let x = a.hash_to_id@[h];
                        assert(a.records.lives(x));
                        assert(x != id);
                        assert(b.contents()[x] == a.contents()[x]);
                        assert(b.records.record(x) == a.records.record(x));
                    }
                }
            },
            None => {
                proof {
                    assert(!a.index.assignment@.contains_key(id));
                    assert(a.index.assignment@.remove(id) =~= a.index.assignment@);
                    index::lemma_thinned(a.index, a.index.bucket_lists(), id);
                }
            },
        }
    }

    /// Forgets the Merkle tree that was built.
    fn invalidate_merkle_cache(&mut self)
        ensures
            *final(self) == (LatentDb { merkle_cache: None, ..*old(self) }),
    {
        self.merkle_cache = None;
    }

    /// The vector that the codes of a record stand for, if it is stored.
    pub fn get_approx_vector(&self, id: u64) -> (r: Option<Vec<u32>>)
        requires
            self.readable(),
        ensures
            r is Some <==> self.records.lives(id),
            r is Some ==> r->0@ == self.approximation(id) && r->0@.len() == self.dim,
    {
        match self.records.codes(id) {
            Some(codes) => {
                assert(self.records.lives(id));
                assert(self.contents()[id] == self.records.record(id));
                Some(self.pq.decode(codes))
            },
            None => None,
        }
    }

    /// The metadata of a record, if it is stored.
    pub fn get_metadata(&self, id: u64) -> (r: Option<&str>)
        requires
            self.records.wf(),
        ensures
            r is Some <==> self.records.lives(id),
            r is Some ==> r->0@ == self.contents()[id].text,
    {
        self.records.metadata(id)
    }

    /// The number of records.
    pub fn len(&self) -> (r: usize)
        ensures
            r == self.records.len,
    {
        self.records.len()
    }

    /// Whether there are no records.
    pub fn is_empty(&self) -> (r: bool)
        ensures
            r == (self.records.len == 0),
    {
        self.records.is_empty()
    }

    /// How much smaller a vector is as codes.
    pub fn compression_ratio<F: Fn(Op, u32, u32, u32) -> u32>(&self, fpu: &F) -> (r: u32)
        requires
            arith::is_unit(*fpu),
            self.pq.dim * 4 <= usize::MAX,
        ensures
            r == arith::arith(*fpu)(
                Op::Div,
                arith::counted(arith::arith(*fpu), self.pq.dim * 4),
                arith::counted(arith::arith(*fpu), self.pq.n_subspaces as int),
                0,
            ),
    {
        let raw: u32 = arith::count(fpu, self.pq.raw_bytes());
        let compressed: u32 = arith::count(fpu, self.pq.compressed_bytes());
        arith::binary(fpu, Op::Div, raw, compressed)
    }

    /// The number of centroids of the index.
    pub fn n_index_centroids(&self) -> (r: usize)
        ensures
            r == self.index.centroids@.len(),
    {
        self.index.n_centroids()
    }

    /// The most records to keep; zero for no limit.
    pub fn record_budget(&self) -> (r: usize)
        ensures
            r == self.record_budget,
    {
        self.record_budget
    }

    /// Which records leave first.
    pub fn eviction_policy(&self) -> (r: EvictionPolicy)
        ensures
            r == self.eviction_policy,
    {
        self.eviction_policy
    }

    /// Chooses which records leave first.
    pub fn set_eviction_policy(&mut self, policy: EvictionPolicy)
        ensures
            *final(self) == (LatentDb { eviction_policy: policy, ..*old(self) }),
            old(self).wf() ==> final(self).wf(),
    {
        self.eviction_policy = policy;
        proof {
            if old(self).wf() {
                lemma_same_parts(*old(self), *self);
            }
        }
    }

    /// Sets the most records to keep; records beyond it leave at once.
    pub fn set_record_budget<F: Fn(Op, u32, u32, u32) -> u32>(&mut self, fpu: &F, budget: usize)
        requires
            arith::is_unit(*fpu),
            old(self).wf(),
        ensures
            final(self).trims(
                arith::arith(*fpu),
                (LatentDb { record_budget: budget, ..*old(self) }),
            ),
    {
        self.record_budget = budget;
        proof {
            lemma_same_parts(*old(self), *self);
        }
        self.enforce_budget(fpu);
    }

    fn energy<F: Fn(Op, u32, u32, u32) -> u32>(&self, fpu: &F, id: u64) -> (r: u32)
        requires
            arith::is_unit(*fpu),
            self.wf(),
        ensures
            r == self.energy_of(arith::arith(*fpu), id),
    {
        let c: usize = match self.index.assigned_centroid(id) {
            Some(c) => c,
            None => {
                return order::LARGEST;
            },
        };
        let approx: Vec<u32> = match self.get_approx_vector(id) {
            Some(v) => v,
            None => {
                return order::LARGEST;
            },
        };
        let projected: Vec<u32> = self.projector.project(fpu, &approx);
        vectors::sq_dist(fpu, &projected, &self.index.centroids[c])
    }

    /// The records in the order in which they leave.
    fn order_of_leaving<F: Fn(Op, u32, u32, u32) -> u32>(&self, fpu: &F) -> (r: Vec<u64>)
        requires
            arith::is_unit(*fpu),
            self.wf(),
        ensures
            r@ == self.eviction_order(arith::arith(*fpu)),
    {
        let ghost ar = arith::arith(*fpu);
        let ids: Vec<u64> = self.records.ids();
        match self.eviction_policy {
            EvictionPolicy::OldestFirst => ids,
            EvictionPolicy::LowestEnergy => {
                let mut scored: Vec<(u64, u64)> = Vec::new();
                let mut i: usize = 0;
                while i < ids.len()
                    invariant
                        i <= ids@.len(),
                        arith::is_unit(*fpu),
                        ar == arith::arith(*fpu),
                        self.wf(),
                        ids@ == self.records.id_list(),
                        scored@.len() == i,
                        forall|j: int| 0 <= j < i ==> #[trigger] scored@[j] == self.energies(ar)[j],
                    decreases ids@.len() - i,
                {
                    let e: u32 = self.energy(fpu, ids[i]);
                    scored.push((order::key_of_position(e), ids[i]));
                    i += 1;
                }
                assert(scored@ =~= self.energies(ar));
                let ranked: Vec<(u64, u64)> = sorting::rank_pairs(scored);
                take_seconds(&ranked)
            },
        }
    }

    /// Removes records until no more are left than the budget allows.
    fn enforce_budget<F: Fn(Op, u32, u32, u32) -> u32>(&mut self, fpu: &F)
        requires
            arith::is_unit(*fpu),
            old(self).wf(),
        ensures
            final(self).trims(arith::arith(*fpu), *old(self)),
    {
        let ghost ar = arith::arith(*fpu);
        let ghost a = *self;
        if self.record_budget == 0 || self.records.len() <= self.record_budget {
            proof {
                lemma_nothing_leaves(ar, a);
            }
            return;
        }
        let excess: usize = self.records.len() - self.record_budget;
        let leaving: Vec<u64> = self.order_of_leaving(fpu);
        let slots: usize = self.records.capacity();
        proof {
            lemma_eviction_order(a, ar);
            assert(leaving@.take(0).to_set() =~= Set::<u64>::empty());
            assert(a.contents().remove_keys(leaving@.take(0).to_set()) =~= a.contents());
            assert(a.index.assignment@.remove_keys(leaving@.take(0).to_set())
                =~= a.index.assignment@);
            lemma_thinned_none(a.index.bucket_lists(), leaving@.take(0).to_set());
        }
        let mut i: usize = 0;
        while i < excess
            invariant
                i <= excess,
                self.wf(),
                self.same_setup(a),
                self.next_id == a.next_id,
                leaving@ == a.eviction_order(ar),
                excess == a.excess(),
                excess <= leaving@.len(),
                leaving@.no_duplicates(),
                forall|j: int| 0 <= j < leaving@.len() ==> a.records.lives(#[trigger] leaving@[j]),
                self.records.len == a.records.len - i,
                forall|x: u64| #[trigger]
                    self.records.lives(x) <==> a.records.lives(x) && !leaving@.take(
                        i as int,
                    ).contains(x),
                self.contents() == a.contents().remove_keys(leaving@.take(i as int).to_set()),
                self.index.assignment@ == a.index.assignment@.remove_keys(
                    leaving@.take(i as int).to_set(),
                ),
                self.index.bucket_lists() == index::thinned(
                    a.index.bucket_lists(),
                    leaving@.take(i as int).to_set(),
                ),
            decreases excess - i,
        {
            let id: u64 = leaving[i];
            let ghost done = leaving@.take(i as int);
            proof {
                if done.contains(id) {
                    let k = choose|k: int| 0 <= k < done.len() && done[k] == id;
                    assert(leaving@[k] == leaving@[i as int]);
                }
                assert(a.records.lives(leaving@[i as int]));
                assert(self.records.lives(id));
            }
            self.remove(id);
            proof {
                let more = leaving@.take(i + 1);
                assert(more =~= done.push(id));
                assert forall|x: u64| more.contains(x) <==> done.contains(x) || x == id by {
                    if done.contains(x) {
                        let k = choose|k: int| 0 <= k < done.len() && done[k] == x;
                        assert(more[k] == x);
                    }
                    assert(more[done.len() as int] == id);
                    if more.contains(x) && x != id {
                        let k = choose|k: int| 0 <= k < more.len() && more[k] == x;
                        assert(done[k] == x);
                    }
                }
                assert(a.contents().remove_keys(done.to_set()).remove(id) =~= a.contents().remove_keys(
                    more.to_set(),
                ));
                assert(a.index.assignment@.remove_keys(done.to_set()).remove(id)
                    =~= a.index.assignment@.remove_keys(more.to_set()));
                assert(done.to_set().union(set![id]) =~= more.to_set());
                lemma_thinned_twice(a.index.bucket_lists(), done.to_set(), set![id]);
            }
            i += 1;
        }
    }
}

/// The projections of `vectors`.
pub open spec fn projections(ar: Arith, p: Projector, vectors: Seq<Seq<u32>>) -> Seq<Seq<u32>> {
    Seq::new(vectors.len(), |i: int| p.projected(ar, vectors[i]))
}

fn take_seconds(v: &Vec<(u64, u64)>) -> (r: Vec<u64>)
    ensures
        r@ == seconds(v@),
{
    let mut r: Vec<u64> = Vec::new();
    let mut i: usize = 0;
    while i < v.len()
        invariant
            i <= v@.len(),
            r@.len() == i,
            forall|j: int| 0 <= j < i ==> #[trigger] r@[j] == v@[j].1,
        decreases v@.len() - i,
    {
        r.push(v[i].1);
        i += 1;
    }
    assert(r@ =~= seconds(v@));
    r
}

/// What does not touch the records keeps them sound.
proof fn lemma_same_parts(a: LatentDb, b: LatentDb)
    requires
        a.wf(),
        b == (LatentDb {
            record_budget: b.record_budget,
            eviction_policy: b.eviction_policy,
            ..a
        }),
    ensures
        b.wf(),
{
    assert forall|x: u64| #[trigger] b.records.lives(x) implies b.fits(x) by {
        assert(a.records.lives(x));
        assert(a.fits(x));
    }
}

/// A database with one more record is sound.
proof fn lemma_stored(ar: Arith, a: LatentDb, b: LatentDb, embedding: Seq<u32>, text: Seq<char>)
    requires
        a.wf(),
        b.parts_fit(),
        b.same_setup(a),
        !a.records.lives(a.next_id),
        !a.hash_to_id@.contains_key(content_hash(embedding)),
        b.next_id == a.next_id + 1,
        b.contents() == a.contents().insert(
            a.next_id,
            (Record {
                hash: content_hash(embedding),
                codes: a.pq.encoded(ar, embedding),
                text,
            }),
        ),
        pq::decodable(a.pq.books(), a.pq.encoded(ar, embedding)),
        b.index.assignment@ == a.index.assignment@.insert(
            a.next_id,
            a.index.nearest(ar, a.projector.projected(ar, embedding)) as usize,
        ),
        ({
            let bucket = a.index.nearest(ar, a.projector.projected(ar, embedding));
            b.index.bucket_lists() == a.index.bucket_lists().update(
                bucket,
                a.index.bucket_lists()[bucket].push(a.next_id),
            )
        }),
        b.hash_to_id@ == a.hash_to_id@.insert(content_hash(embedding), a.next_id),
        b.records.len == a.records.len + 1,
        b.merkle_cache is None,
        forall|x: u64| #[trigger]
            b.records.lives(x) <==> x == a.next_id || a.records.lives(x),
    ensures
        b.stores(ar, a, embedding, text),
{
    let id = a.next_id;
    let hash = content_hash(embedding);
    assert forall|x: u64| #[trigger] b.records.lives(x) implies b.fits(x) by {
        assert(b.contents()[x] == b.records.record(x));
        if x != id {
            assert(a.records.lives(x));
            assert(a.fits(x));
            assert(a.contents()[x] == a.records.record(x));
            assert(b.records.record(x) == a.records.record(x));
        }
    }
    assert forall|x: u64| #[trigger] b.index.assignment@.contains_key(x) implies b.records.lives(
        x,
    ) by {
        if x != id {
            assert(a.index.assignment@.contains_key(x));
            assert(a.records.lives(x));
        }
    }
    assert forall|h: u64| #[trigger] b.hash_to_id@.contains_key(h) implies b.records.lives(
        b.hash_to_id@[h],
    ) && b.records.record(b.hash_to_id@[h]).hash == h by {
        if h == hash {
            assert(b.records.lives(id));
            assert(b.contents()[id] == b.records.record(id));
        } else {
            assert(a.hash_to_id@.contains_key(h));
            let x = a.hash_to_id@[h];
            assert(a.records.lives(x));
            assert(x != id);
            assert(b.contents()[x] == a.contents()[x]);
            assert(a.contents()[x] == a.records.record(x));
            assert(b.contents()[x] == b.records.record(x));
        }
    }
}

/// Within the budget nothing leaves.
proof fn lemma_nothing_leaves(ar: Arith, a: LatentDb)
    requires
        a.wf(),
        a.within_budget(),
    ensures
        a.trims(ar, a),
{
    assert(a.excess() == 0);
    assert(a.leaving(ar).to_set() =~= Set::<u64>::empty());
    assert(a.contents().remove_keys(a.leaving(ar).to_set()) =~= a.contents());
    assert(a.index.assignment@.remove_keys(a.leaving(ar).to_set()) =~= a.index.assignment@);
    lemma_thinned_none(a.index.bucket_lists(), a.leaving(ar).to_set());
}

proof fn lemma_thinned_none(buckets: Seq<Seq<u64>>, gone: Set<u64>)
    requires
        gone =~= Set::<u64>::empty(),
    ensures
        index::thinned(buckets, gone) == buckets,
{
    assert forall|c: int| 0 <= c < buckets.len() implies index::dropped(
        #[trigger] buckets[c],
        gone,
    ) == buckets[c] by {
        index::lemma_dropped_none(buckets[c], gone);
    }
    assert(index::thinned(buckets, gone) =~= buckets);
}

proof fn lemma_thinned_twice(buckets: Seq<Seq<u64>>, g: Set<u64>, h: Set<u64>)
    ensures
        index::thinned(index::thinned(buckets, g), h) == index::thinned(buckets, g.union(h)),
{
    assert forall|c: int| 0 <= c < buckets.len() implies index::dropped(
        index::dropped(#[trigger] buckets[c], g),
        h,
    ) == index::dropped(buckets[c], g.union(h)) by {
        index::lemma_dropped_twice(buckets[c], g, h);
    }
    assert(index::thinned(index::thinned(buckets, g), h) =~= index::thinned(
        buckets,
        g.union(h),
    ));
}

/// A stored record can be read: under its id stand its metadata and the codes
/// of its vector, its vector is known not to be stored twice, and the other
/// records are as they were, as long as none has to leave.
pub proof fn stored_records_can_be_read(
    before: LatentDb,
    after: LatentDb,
    ar: Arith,
    embedding: Seq<u32>,
    metadata: Seq<char>,
)
    requires
        before.wf(),
        after.gains(ar, before, embedding, metadata),
        before.record_budget == 0 || before.records.len < before.record_budget,
    ensures
        after.records.lives(before.next_id),
        after.contents()[before.next_id].text == metadata,
        after.hash_to_id@.contains_key(content_hash(embedding)),
        after.hash_to_id@[content_hash(embedding)] == before.next_id,
        after.approximation(before.next_id) == before.pq.decoded(
            before.pq.encoded(ar, embedding),
        ),
        after.records.len == before.records.len + 1,
        !before.records.lives(before.next_id),
        forall|id: u64|
            id != before.next_id && before.records.lives(id) ==> #[trigger] after.approximation(id)
                == before.approximation(id),
        forall|id: u64|
            id != before.next_id ==> (#[trigger] after.records.lives(id)
                <==> before.records.lives(id)),
        forall|id: u64|
            id != before.next_id && before.records.lives(id) ==> #[trigger] after.contents()[id]
                == before.contents()[id],
{
    let mid = choose|mid: LatentDb|
        mid.stores(ar, before, embedding, metadata) && #[trigger] after.trims(ar, mid);
    assert(mid.excess() == 0);
    assert(mid.leaving(ar).to_set() =~= Set::<u64>::empty());
    assert(after.contents() =~= mid.contents());
    let id = before.next_id;
    assert(after.contents().contains_key(id));
    assert forall|x: u64| x != id implies (#[trigger] after.records.lives(x)
        <==> before.records.lives(x)) by {
        assert(after.contents().contains_key(x) <==> before.contents().contains_key(x));
    }
    assert(after.contents()[id] == after.records.record(id));
    assert(after.fits(id));
    if before.records.lives(id) {
        assert(before.fits(id));
    }
    assert forall|x: u64| x != id && before.records.lives(x) implies #[trigger] after.approximation(
        x,
    ) == before.approximation(x) by {
        assert(after.contents()[x] == before.contents()[x]);
        assert(after.records.lives(x));
        assert(after.contents()[x] == after.records.record(x));
        assert(before.contents()[x] == before.records.record(x));
    }
}

/// `after` comes of `before` by one operation: a record is stored or removed,
/// the budget is set or enforced, or nothing is done to the records.
pub open spec fn evolves(ar: Arith, before: LatentDb, after: LatentDb) -> bool {
    ||| exists|v: Seq<u32>, text: Seq<char>| #[trigger] after.gains(ar, before, v, text)
    ||| exists|budget: usize| #[trigger]
        after.trims(ar, (LatentDb { record_budget: budget, ..before }))
    ||| exists|id: u64| #[trigger] after.loses(before, id)
    ||| after.records == before.records && after.next_id == before.next_id
}

/// An id that is given out is above every id that was given out before,
/// whatever became of those records. `history` lists the states of a database
/// from one operation to the next.
pub proof fn ids_are_not_given_out_again(ar: Arith, history: Seq<LatentDb>, i: int, j: int)
    requires
        0 <= i < j,
        j < history.len(),
        forall|k: int|
            0 <= k < history.len() - 1 ==> evolves(ar, #[trigger] history[k], history[k + 1]),
        exists|v: Seq<u32>, text: Seq<char>| #[trigger]
            history[i + 1].gains(ar, history[i], v, text),
    ensures
        history[i].next_id < history[j].next_id,
    decreases j,
{
    if j == i + 1 {
        let (v, text) = choose|v: Seq<u32>, text: Seq<char>| #[trigger]
            history[i + 1].gains(ar, history[i], v, text);
        lemma_gains_next(ar, history[i], history[j], v, text);
    } else {
        ids_are_not_given_out_again(ar, history, i, j - 1);
        assert(evolves(ar, history[j - 1], history[j - 1 + 1]));
        lemma_next_id_rises(ar, history[j - 1], history[j]);
    }
}

proof fn lemma_gains_next(
    ar: Arith,
    before: LatentDb,
    after: LatentDb,
    v: Seq<u32>,
    text: Seq<char>,
)
    requires
        after.gains(ar, before, v, text),
    ensures
        after.next_id == before.next_id + 1,
{
    let mid = choose|mid: LatentDb|
        mid.stores(ar, before, v, text) && #[trigger] after.trims(ar, mid);
    assert(mid.next_id == before.next_id + 1);
}

proof fn lemma_next_id_rises(ar: Arith, before: LatentDb, after: LatentDb)
    requires
        evolves(ar, before, after),
    ensures
        before.next_id <= after.next_id,
{
    if exists|v: Seq<u32>, text: Seq<char>| #[trigger] after.gains(ar, before, v, text) {
        let (v, text) = choose|v: Seq<u32>, text: Seq<char>| #[trigger]
            after.gains(ar, before, v, text);
        lemma_gains_next(ar, before, after, v, text);
    }
}

/// Where the oldest leave first, no record stays that is older than one that
/// left.
pub proof fn oldest_leave_first(before: LatentDb, after: LatentDb, ar: Arith, x: u64, y: u64)
    requires
        before.wf(),
        before.records.live@.len() <= u64::MAX,
        before.eviction_policy == EvictionPolicy::OldestFirst,
        after.trims(ar, before),
        after.records.lives(x),
        before.records.lives(y),
        !after.records.lives(y),
    ensures
        y < x,
{
    let ids = before.eviction_order(ar);
    crate::arena::lemma_live_ids(before.records.live@, before.records.live@.len() as int);
    let (i, j) = lemma_stays_and_leaves(before, after, ar, x, y);
    assert(ids[j] < ids[i]);
}

/// Where the records with the lowest energy leave first, no record stays that
/// has a lower energy than one that left.
pub proof fn lowest_energy_leaves_first(
    before: LatentDb,
    after: LatentDb,
    ar: Arith,
    x: u64,
    y: u64,
)
    requires
        before.wf(),
        before.records.live@.len() <= u64::MAX,
        before.eviction_policy == EvictionPolicy::LowestEnergy,
        after.trims(ar, before),
        after.records.lives(x),
        before.records.lives(y),
        !after.records.lives(y),
    ensures
        order::position(before.energy_of(ar, y)) <= order::position(before.energy_of(ar, x)),
{
    let e = before.energies(ar);
    let r = sorting::ranked(e);
    sorting::lemma_ranked(e);
    let (i, j) = lemma_stays_and_leaves(before, after, ar, x, y);
    assert(sorting::pair_order()(r[j], r[i]));
    assert(r.contains(r[i]) && r.contains(r[j]));
    assert(e.contains(r[i]) && e.contains(r[j]));
    let k = choose|k: int| 0 <= k < e.len() && e[k] == r[i];
    let m = choose|m: int| 0 <= m < e.len() && e[m] == r[j];
    assert(e[k].1 == x);
    assert(e[m].1 == y);
}

/// What leaves stands before what stays in the order of leaving.
proof fn lemma_stays_and_leaves(
    before: LatentDb,
    after: LatentDb,
    ar: Arith,
    x: u64,
    y: u64,
) -> (r: (int, int))
    requires
        before.wf(),
        before.records.live@.len() <= u64::MAX,
        after.trims(ar, before),
        after.records.lives(x),
        before.records.lives(y),
        !after.records.lives(y),
    ensures
        0 <= r.1 < r.0 < before.eviction_order(ar).len(),
        before.eviction_order(ar)[r.0] == x,
        before.eviction_order(ar)[r.1] == y,
{
    let order = before.eviction_order(ar);
    let gone = before.leaving(ar);
    lemma_eviction_order(before, ar);
    assert(after.contents().contains_key(x));
    assert(before.contents().contains_key(x));
    assert(!gone.contains(x));
    assert(before.contents().contains_key(y));
    assert(!after.contents().contains_key(y));
    assert(gone.contains(y));
    let j = choose|j: int| 0 <= j < gone.len() && gone[j] == y;
    assert(order[j] == y);
    lemma_order_holds_all(before, ar, x);
    let i = choose|i: int| 0 <= i < order.len() && order[i] == x;
    if i < gone.len() {
        assert(gone[i] == x);
    }
    (i, j)
}

proof fn lemma_order_holds_all(db: LatentDb, ar: Arith, x: u64)
    requires
        db.wf(),
        db.records.live@.len() <= u64::MAX,
        db.records.lives(x),
    ensures
        db.eviction_order(ar).contains(x),
{
    let ids = db.records.id_list();
    crate::arena::lemma_live_ids(db.records.live@, db.records.live@.len() as int);
    assert(ids.contains((x as int) as u64));
    let k = choose|k: int| 0 <= k < ids.len() && ids[k] == x;
    match db.eviction_policy {
        EvictionPolicy::OldestFirst => {},
        EvictionPolicy::LowestEnergy => {
            let e = db.energies(ar);
            sorting::lemma_ranked(e);
            let r = sorting::ranked(e);
            assert(e[k].1 == x);
            assert(e.contains(e[k]));
            assert(r.contains(e[k]));
            let i = choose|i: int| 0 <= i < r.len() && r[i] == e[k];
            assert(db.eviction_order(ar)[i] == x);
        },
    }
}

/// The budget is kept: a full database that stores a record is full again.
pub proof fn budgets_are_kept(
    before: LatentDb,
    after: LatentDb,
    ar: Arith,
    embedding: Seq<u32>,
    metadata: Seq<char>,
)
    requires
        before.wf(),
        before.within_budget(),
        before.record_budget > 0,
        after.gains(ar, before, embedding, metadata),
    ensures
        after.records.len <= before.record_budget,
        after.records.len == if before.records.len < before.record_budget {
            before.records.len + 1
        } else {
            before.record_budget as int
        },
{
    let mid = choose|mid: LatentDb|
        mid.stores(ar, before, embedding, metadata) && #[trigger] after.trims(ar, mid);
    assert(mid.records.len == before.records.len + 1);
}

/// The order of leaving holds every record once.
pub proof fn lemma_eviction_order(a: LatentDb, ar: Arith)
    requires
        a.wf(),
        a.records.live@.len() <= u64::MAX,
    ensures
        a.eviction_order(ar).no_duplicates(),
        a.eviction_order(ar).len() == a.records.len,
        forall|j: int|
            0 <= j < a.eviction_order(ar).len() ==> a.records.lives(
                #[trigger] a.eviction_order(ar)[j],
            ),
{
    let ids = a.records.id_list();
    crate::arena::lemma_live_ids(a.records.live@, a.records.live@.len() as int);
    assert(sorting::rising(ids));
    assert(ids.no_duplicates());
    match a.eviction_policy {
        EvictionPolicy::OldestFirst => {},
        EvictionPolicy::LowestEnergy => {
            let e = a.energies(ar);
            assert forall|i: int, j: int| 0 <= i < e.len() && 0 <= j < e.len() && i != j implies e[i]
                != e[j] by {
                assert(ids[i] != ids[j]);
            }
            assert(e.no_duplicates());
            sorting::lemma_ranked(e);
            let r = sorting::ranked(e);
            let order = seconds(r);
            assert forall|j: int| #![trigger r[j]] 0 <= j < r.len() implies exists|k: int|
                0 <= k < e.len() && #[trigger] e[k] == r[j] by {
                assert(r.contains(r[j]));
                assert(e.contains(r[j]));
            }
            assert forall|i: int, j: int|
                0 <= i < order.len() && 0 <= j < order.len() && i != j implies order[i]
                != order[j] by {
                let ki = choose|k: int| 0 <= k < e.len() && #[trigger] e[k] == r[i];
                let kj = choose|k: int| 0 <= k < e.len() && #[trigger] e[k] == r[j];
                assert(r[i] != r[j]);
                assert(ki != kj);
                assert(ids[ki] != ids[kj]);
            }
            assert forall|j: int| 0 <= j < order.len() implies a.records.lives(
                #[trigger] order[j],
            ) by {
                let k = choose|k: int| 0 <= k < e.len() && #[trigger] e[k] == r[j];
                assert(ids[k] == order[j]);
            }
        },
    }
}

} // verus!
