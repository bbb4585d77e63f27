//! Commitments to the records: a Merkle root over all of them, and proofs
//! that single ones are among them.

use vstd::prelude::*;
use vstd::utf8::encode_utf8;
use vstd::utf8::encode_utf8_decode_utf8;

use super::LatentDb;
use crate::arena::lemma_live_ids;
use crate::arena::lemma_slot_fits;
use crate::arena::Record;
use crate::arena::RecordArena;
use crate::bytes;
use crate::merkle;
use crate::merkle::Digest;
use crate::merkle::MerkleProof;
use crate::merkle::MerkleTree;
use crate::sorting;

verus! {

/// The bytes of a record that its leaf is made of.
pub open spec fn leaf_bytes(id: u64, record: Record) -> Seq<u8> {
    bytes::le8(id) + bytes::le8(record.hash) + record.codes + encode_utf8(record.text)
}

/// The leaves of the records, in order of their ids.
pub open spec fn leaves(records: RecordArena) -> Seq<Seq<u8>> {
    let ids = records.id_list();
    Seq::new(ids.len(), |i: int| merkle::leaf(leaf_bytes(ids[i], records.record(ids[i]))))
}

/// A tree over the records, and the id of each leaf.
pub struct MerkleCache {
    pub ids: Vec<u64>,
    pub tree: MerkleTree,
}

impl MerkleCache {
    /// The tree is the one over `records`.
    pub open spec fn covers(&self, records: RecordArena) -> bool {
        &&& self.ids@ == records.id_list()
        &&& self.tree@ == leaves(records)
    }

    /// The proof for the record `id`, if it has a leaf.
    fn proof_of(&self, id: u64, Ghost(records): Ghost<RecordArena>) -> (r: Option<MerkleProof>)
        requires
            self.covers(records),
            sorting::rising(records.id_list()),
        ensures
            r is Some <==> records.id_list().contains(id),
            r is Some ==> proves(records, id, r->0),
    {
        match find(&self.ids, id) {
            Some(at) => {
                let r: Option<MerkleProof> = self.tree.inclusion_proof(at);
                assert(records.id_list()[at as int] == id);
                r
            },
            None => None,
        }
    }
}

/// `p` is the proof for the record `id`.
pub open spec fn proves(records: RecordArena, id: u64, p: MerkleProof) -> bool {
    let at = p.leaf_index as int;
    &&& at < records.id_list().len()
    &&& records.id_list()[at] == id
    &&& p.leaf_hash@ == leaves(records)[at]
    &&& merkle::digests(p.siblings@) == merkle::partners(leaves(records), at)
}

/// Where `id` stands in the rising list `ids`.
fn find(ids: &Vec<u64>, id: u64) -> (r: Option<usize>)
    requires
        sorting::rising(ids@),
    ensures
        r is Some <==> ids@.contains(id),
        r is Some ==> r->0 < ids@.len() && ids@[r->0 as int] == id,
{
    let mut low: usize = 0;
    let mut high: usize = ids.len();
    while low < high
        invariant
            low <= high <= ids@.len(),
            sorting::rising(ids@),
            forall|i: int| 0 <= i < low ==> #[trigger] ids@[i] < id,
            forall|i: int| high <= i < ids@.len() ==> #[trigger] ids@[i] > id,
        decreases high - low,
    {
        let mid: usize = low + (high - low) / 2;
        if ids[mid] == id {
            return Some(mid);
        } else if ids[mid] < id {
            assert forall|i: int| 0 <= i < mid + 1 implies #[trigger] ids@[i] < id by {
                if i < mid {
                    assert(ids@[i] < ids@[mid as int]);
                }
            }
            low = mid + 1;
        } else {
            assert forall|i: int| mid <= i < ids@.len() implies #[trigger] ids@[i] > id by {
                if i > mid {
                    assert(ids@[mid as int] < ids@[i]);
                }
            }
            high = mid;
        }
    }
    None
}

fn record_leaf_bytes(id: u64, hash: u64, codes: &[u8], metadata: &str) -> (r: Vec<u8>)
    ensures
        r@ == leaf_bytes(id, (Record { hash, codes: codes@, text: metadata@ })),
{
    let mut r: Vec<u8> = Vec::new();
    bytes::push_le8(&mut r, id);
    bytes::push_le8(&mut r, hash);
    let ghost before = r@;
    r.extend_from_slice(codes);
    assert(r@ =~= before + codes@);
    r.extend_from_slice(metadata.as_bytes());
    assert(r@ =~= leaf_bytes(id, Record { hash, codes: codes@, text: metadata@ }));
    r
}

impl LatentDb {
    /// The ids of the records and their leaves, in order.
    fn merkle_leaves(&self) -> (r: (Vec<u64>, Vec<Digest>))
        requires
            self.records.wf(),
        ensures
            r.0@ == self.records.id_list(),
            merkle::digests(r.1@) == leaves(self.records),
    {
        let slots: usize = self.records.capacity();
        let ids: Vec<u64> = self.records.ids();
        proof {
            lemma_live_ids(self.records.live@, self.records.live@.len() as int);
        }
        let ghost target = leaves(self.records);
        let mut r: Vec<Digest> = Vec::new();
        let mut i: usize = 0;
        while i < ids.len()
            invariant
                i <= ids@.len(),
                self.records.wf(),
                ids@ == self.records.id_list(),
                forall|j: int| 0 <= j < ids@.len() ==> self.records.lives(#[trigger] ids@[j]),
                target == leaves(self.records),
                r@.len() == i,
                forall|j: int| 0 <= j < i ==> (#[trigger] r@[j])@ == target[j],
            decreases ids@.len() - i,
        {
            let id: u64 = ids[i];
            assert(self.records.lives(id));
            assert(self.records.contents()[id] == self.records.record(id));
            let hash: u64 = self.records.hash(id).unwrap();
            let codes: &[u8] = self.records.codes(id).unwrap();
            let metadata: &str = self.records.metadata(id).unwrap();
            let input: Vec<u8> = record_leaf_bytes(id, hash, codes, metadata);
            r.push(merkle::hash_leaf(&input));
            i += 1;
        }
        assert(merkle::digests(r@) =~= target);
        (ids, r)
    }

    /// Builds the tree over the records.
    fn build_merkle_cache(&self) -> (r: MerkleCache)
        requires
            self.records.wf(),
        ensures
            r.covers(self.records),
    {
        let (ids, hashes) = self.merkle_leaves();
        MerkleCache { ids, tree: MerkleTree::build(hashes) }
    }

    /// Builds the tree over the records and keeps it until they change, so
    /// that roots and proofs need not build it again.
    pub fn ensure_merkle_cache(&mut self)
        requires
            old(self).records.wf(),
            old(self).cache_fits(),
        ensures
            final(self).cache_fits(),
            old(self).wf() ==> final(self).wf(),
            final(self).merkle_cache is Some,
            *final(self) == (LatentDb { merkle_cache: final(self).merkle_cache, ..*old(self) }),
    {
        if self.merkle_cache.is_some() {
            return;
        }
        let ghost a = *self;
        let cache: MerkleCache = self.build_merkle_cache();
        self.merkle_cache = Some(cache);
        proof {
            let b = *self;
            if a.wf() {
                assert forall|x: u64| #[trigger] b.records.lives(x) implies b.fits(x) by {
                    assert(a.records.lives(x));
                    assert(a.fits(x));
                }
            }
        }
    }

    /// The Merkle tree over the records.
    pub fn merkle_tree(&self) -> (r: MerkleTree)
        requires
            self.records.wf(),
            self.cache_fits(),
        ensures
            r@ == leaves(self.records),
    {
        match &self.merkle_cache {
            Some(cache) => cache.tree.clone(),
            None => self.build_merkle_cache().tree,
        }
    }

    /// The commitment to all records.
    pub fn merkle_root(&self) -> (r: Digest)
        requires
            self.records.wf(),
            self.cache_fits(),
        ensures
            r@ == merkle::root_of(leaves(self.records)),
    {
        match &self.merkle_cache {
            Some(cache) => cache.tree.root(),
            None => self.build_merkle_cache().tree.root(),
        }
    }

    /// The proof that a record is among those that the root commits to;
    /// `None` if it is not stored.
    pub fn merkle_proof(&self, id: u64) -> (r: Option<MerkleProof>)
        requires
            self.records.wf(),
            self.cache_fits(),
        ensures
            r is Some <==> self.records.lives(id),
            r is Some ==> proves(self.records, id, r->0),
    {
        let slots: usize = self.records.capacity();
        proof {
            lemma_live_ids(self.records.live@, self.records.live@.len() as int);
            if self.records.lives(id) {
                assert(self.records.id_list().contains((id as int) as u64));
            }
            if self.records.id_list().contains(id) {
                let ids = self.records.id_list();
                let j = choose|j: int| 0 <= j < ids.len() && ids[j] == id;
                assert(ids[j] < slots);
            }
        }
        match &self.merkle_cache {
            Some(cache) => cache.proof_of(id, Ghost(self.records)),
            None => {
                let cache: MerkleCache = self.build_merkle_cache();
                cache.proof_of(id, Ghost(self.records))
            },
        }
    }
}

/// The proof of a stored record leads from its leaf to the root.
pub proof fn stored_records_are_proved(records: RecordArena, id: u64, p: MerkleProof)
    requires
        proves(records, id, p),
    ensures
        merkle::climbed(p.leaf_hash@, p.leaf_index as int, merkle::digests(p.siblings@))
            == merkle::root_of(leaves(records)),
{
    merkle::every_proof_verifies(leaves(records), p.leaf_index as int);
}

/// The root depends on the records alone, not on how they came to be stored.
pub proof fn root_depends_on_contents(a: RecordArena, b: RecordArena)
    requires
        a.wf(),
        b.wf(),
        a.live@.len() <= u64::MAX,
        b.live@.len() <= u64::MAX,
        a.contents() == b.contents(),
    ensures
        leaves(a) == leaves(b),
        merkle::root_of(leaves(a)) == merkle::root_of(leaves(b)),
{
    let x = a.id_list();
    let y = b.id_list();
    lemma_live_ids(a.live@, a.live@.len() as int);
    lemma_live_ids(b.live@, b.live@.len() as int);
    assert forall|id: u64| x.contains(id) <==> y.contains(id) by {
        lemma_listed(a, id);
        lemma_listed(b, id);
        assert(a.contents().contains_key(id) <==> a.lives(id));
        assert(b.contents().contains_key(id) <==> b.lives(id));
    }
    lemma_rising_unique(x, y);
    assert forall|i: int| 0 <= i < x.len() implies #[trigger] leaves(a)[i] == leaves(b)[i] by {
        let id = x[i];
        assert(x.contains(id));
        lemma_listed(a, id);
        lemma_listed(b, id);
        assert(a.contents()[id] == a.record(id));
        assert(b.contents()[id] == b.record(id));
    }
    assert(leaves(a) =~= leaves(b));
}

/// What is hashed for the leaves of the records, in order of their ids.
pub open spec fn leaf_inputs(records: RecordArena) -> Seq<Seq<u8>> {
    let ids = records.id_list();
    Seq::new(ids.len(), |i: int| merkle::leaf_input(leaf_bytes(ids[i], records.record(ids[i]))))
}

/// A record can be read off the bytes of its leaf.
pub proof fn leaf_bytes_tell_apart(i: u64, a: Record, j: u64, b: Record)
    requires
        a.codes.len() == b.codes.len(),
        leaf_bytes(i, a) == leaf_bytes(j, b),
    ensures
        i == j,
        a == b,
{
    let x = leaf_bytes(i, a);
    let y = leaf_bytes(j, b);
    let n = a.codes.len() as int;
    assert(bytes::le8(i) =~= x.subrange(0, 8));
    assert(bytes::le8(j) =~= y.subrange(0, 8));
    assert(bytes::le8(a.hash) =~= x.subrange(8, 16));
    assert(bytes::le8(b.hash) =~= y.subrange(8, 16));
    assert(a.codes =~= x.subrange(16, 16 + n));
    assert(b.codes =~= y.subrange(16, 16 + n));
    assert(encode_utf8(a.text) =~= x.skip(16 + n));
    assert(encode_utf8(b.text) =~= y.skip(16 + n));
    bytes::le8_tells_apart(i, j);
    bytes::le8_tells_apart(a.hash, b.hash);
    encode_utf8_decode_utf8(a.text);
    encode_utf8_decode_utf8(b.text);
}

/// Two databases with as many records, but not the same, have different
/// roots, unless two inputs that are hashed at one place of the two trees
/// collide.
pub proof fn roots_tell_contents_apart(a: RecordArena, b: RecordArena)
    requires
        a.wf(),
        b.wf(),
        a.live@.len() <= u64::MAX,
        b.live@.len() <= u64::MAX,
        a.code_len == b.code_len,
        a.len == b.len,
        a.contents() != b.contents(),
        !merkle::clash(leaf_inputs(a), leaf_inputs(b)),
        !merkle::clash(merkle::inputs_over(leaves(a)), merkle::inputs_over(leaves(b))),
    ensures
        merkle::root_of(leaves(a)) != merkle::root_of(leaves(b)),
{
    let x = a.id_list();
    let y = b.id_list();
    lemma_live_ids(a.live@, a.live@.len() as int);
    lemma_live_ids(b.live@, b.live@.len() as int);
    assert(leaves(a).len() == leaves(b).len());
    if leaves(a) == leaves(b) {
        assert forall|i: int| 0 <= i < x.len() implies #[trigger] x[i] == y[i] && a.record(x[i])
            == b.record(y[i]) by {
            assert(leaves(a)[i] == leaves(b)[i]);
            assert(!merkle::collide(leaf_inputs(a)[i], leaf_inputs(b)[i]));
            let p = leaf_bytes(x[i], a.record(x[i]));
            let q = leaf_bytes(y[i], b.record(y[i]));
            assert(p =~= merkle::leaf_input(p).skip(1));
            assert(q =~= merkle::leaf_input(q).skip(1));
            lemma_codes_len(a, x[i]);
            lemma_codes_len(b, y[i]);
            leaf_bytes_tell_apart(x[i], a.record(x[i]), y[i], b.record(y[i]));
        }
        assert forall|id: u64| #[trigger] a.contents().contains_key(id)
            <==> b.contents().contains_key(id) by {
            lemma_listed(a, id);
            lemma_listed(b, id);
            assert(x =~= y);
        }
        assert forall|id: u64| #[trigger] a.contents().contains_key(id) implies a.contents()[id]
            == b.contents()[id] by {
            lemma_listed(a, id);
            let i = choose|i: int| 0 <= i < x.len() && x[i] == id;
            assert(x[i] == y[i]);
        }
        assert(a.contents() =~= b.contents());
    }
    assert(merkle::sized(leaves(a)));
    assert(merkle::sized(leaves(b)));
    merkle::roots_tell_leaves_apart(leaves(a), leaves(b));
}

proof fn lemma_codes_len(a: RecordArena, id: u64)
    requires
        a.wf(),
        a.lives(id),
    ensures
        a.record(id).codes.len() == a.code_len,
{
    lemma_slot_fits(a, id as int);
}

proof fn lemma_listed(a: RecordArena, id: u64)
    requires
        a.live@.len() <= u64::MAX,
    ensures
        a.id_list().contains(id) <==> a.lives(id),
{
    let ids = a.id_list();
    lemma_live_ids(a.live@, a.live@.len() as int);
    if a.lives(id) {
        assert(ids.contains((id as int) as u64));
    }
    if ids.contains(id) {
        let j = choose|j: int| 0 <= j < ids.len() && ids[j] == id;
        assert(ids[j] < a.live@.len());
    }
}

/// Rising lists with the same members are the same.
proof fn lemma_rising_unique(x: Seq<u64>, y: Seq<u64>)
    requires
        sorting::rising(x),
        sorting::rising(y),
        forall|id: u64| x.contains(id) <==> y.contains(id),
    ensures
        x == y,
    decreases x.len(),
{
    if x.len() == 0 {
        if y.len() > 0 {
            assert(y.contains(y[0]));
            assert(x.contains(y[0]));
        }
        assert(x =~= y);
    } else {
        assert(x.contains(x.last()));
        assert(y.contains(x.last()));
        let j = choose|j: int| 0 <= j < y.len() && y[j] == x.last();
        assert(y.contains(y.last()));
        assert(x.contains(y.last()));
        let i = choose|i: int| 0 <= i < x.len() && x[i] == y.last();
        assert(x.last() == y.last()) by {
            if j < y.len() - 1 {
                assert(y[j] < y[y.len() - 1]);
            }
            if i < x.len() - 1 {
                assert(x[i] < x[x.len() - 1]);
            }
        }
        let p = x.drop_last();
        let q = y.drop_last();
        assert forall|id: u64| p.contains(id) <==> q.contains(id) by {
            if p.contains(id) {
                let k = choose|k: int| 0 <= k < p.len() && p[k] == id;
                assert(x[k] == id);
                assert(x[k] < x[x.len() - 1]);
                assert(y.contains(id));
                let m = choose|m: int| 0 <= m < y.len() && y[m] == id;
                assert(q[m] == id);
            }
            if q.contains(id) {
                let k = choose|k: int| 0 <= k < q.len() && q[k] == id;
                assert(y[k] == id);
                assert(y[k] < y[y.len() - 1]);
                assert(x.contains(id));
                let m = choose|m: int| 0 <= m < x.len() && x[m] == id;
                assert(p[m] == id);
            }
        }
        lemma_rising_unique(p, q);
        assert(x =~= p.push(x.last()));
        assert(y =~= q.push(y.last()));
    }
}

} // verus!
