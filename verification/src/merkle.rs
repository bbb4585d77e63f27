//! A binary Merkle tree over any number of leaves.
//!
//! Leaves are hashed with a zero byte before them and pairs of nodes with a
//! one byte, so that neither can pass for the other. A node without a partner
//! is paired with itself.

use vstd::prelude::*;

verus! {

/// The size of a digest in bytes.
pub const HASH_SIZE: usize = 32;

/// A hash value.
pub type Digest = [u8; 32];

/// What BLAKE3 makes of `input`.
pub uninterp spec fn blake3_of(input: Seq<u8>) -> [u8; 32];

/// `blake3::hash`: the 32-byte hash of `input`, determined by `input` alone.
#[verifier::external_body]
pub(crate) fn digest(input: &[u8]) -> (r: Digest)
    ensures
        r == blake3_of(input@),
{
    *blake3::hash(input).as_bytes()
}

/// `x` and `y` differ, and have one hash.
pub open spec fn collide(x: Seq<u8>, y: Seq<u8>) -> bool {
    x != y && blake3_of(x)@ == blake3_of(y)@
}

/// Two inputs at one place of the two lists collide.
pub open spec fn clash(xs: Seq<Seq<u8>>, ys: Seq<Seq<u8>>) -> bool {
    exists|k: int| 0 <= k < xs.len() && k < ys.len() && #[trigger] collide(xs[k], ys[k])
}

/// What is hashed for a leaf with the content `data`.
pub open spec fn leaf_input(data: Seq<u8>) -> Seq<u8> {
    seq![0u8] + data
}

/// What is hashed for a node with the children `l` and `r`.
pub open spec fn pair_input(l: Seq<u8>, r: Seq<u8>) -> Seq<u8> {
    seq![1u8] + l + r
}

/// The hash of a leaf with the content `data`.
pub open spec fn leaf(data: Seq<u8>) -> Seq<u8> {
    blake3_of(leaf_input(data))@
}

/// The hash of a node with the children `l` and `r`.
pub open spec fn pair(l: Seq<u8>, r: Seq<u8>) -> Seq<u8> {
    blake3_of(pair_input(l, r))@
}

/// The partner of node `i` of a level: the other child of its parent, or the
/// node itself if it is the only one.
pub open spec fn partner(level: Seq<Seq<u8>>, i: int) -> Seq<u8> {
    if i % 2 == 1 {
        level[i - 1]
    } else if i + 1 < level.len() {
        level[i + 1]
    } else {
        level[i]
    }
}

/// The level above.
pub open spec fn above(level: Seq<Seq<u8>>) -> Seq<Seq<u8>> {
    Seq::new(
        ((level.len() + 1) / 2) as nat,
        |i: int| pair(level[2 * i], partner(level, 2 * i)),
    )
}

/// The root over a level.
pub open spec fn root_of(level: Seq<Seq<u8>>) -> Seq<u8>
    decreases level.len(),
{
    if level.len() == 0 {
        Seq::new(32, |i: int| 0u8)
    } else if level.len() == 1 {
        level[0]
    } else {
        root_of(above(level))
    }
}

/// The partners on the way from node `i` of a level up to the root.
pub open spec fn partners(level: Seq<Seq<u8>>, i: int) -> Seq<Seq<u8>>
    decreases level.len(),
{
    if level.len() <= 1 {
        Seq::empty()
    } else {
        seq![partner(level, i)] + partners(above(level), i / 2)
    }
}

/// What the hash `h` at place `i` becomes on the way up past `siblings`.
pub open spec fn climbed(h: Seq<u8>, i: int, siblings: Seq<Seq<u8>>) -> Seq<u8>
    decreases siblings.len(),
{
    if siblings.len() == 0 {
        h
    } else {
        climbed(
            if i % 2 == 0 {
                pair(h, siblings[0])
            } else {
                pair(siblings[0], h)
            },
            i / 2,
            siblings.drop_first(),
        )
    }
}

/// The contents of a list of digests.
pub open spec fn digests(v: Seq<Digest>) -> Seq<Seq<u8>> {
    Seq::new(v.len(), |i: int| v[i]@)
}

/// The hash of a leaf with the content `data`.
pub fn hash_leaf(data: &[u8]) -> (r: Digest)
    ensures
        r@ == leaf(data@),
{
    let mut input: Vec<u8> = Vec::new();
    input.push(0);
    input.extend_from_slice(data);
    assert(input@ =~= seq![0u8] + data@);
    digest(&input)
}

fn append_digest(input: &mut Vec<u8>, d: &Digest)
    ensures
        final(input)@ == old(input)@ + d@,
{
    let ghost start = input@;
    let mut i: usize = 0;
    while i < 32
        invariant
            i <= 32,
            input@ == start + d@.take(i as int),
        decreases 32 - i,
    {
        input.push(d[i]);
        proof {
            assert(d@.take(i + 1) =~= d@.take(i as int).push(d@[i as int]));
        }
        i += 1;
    }
    assert(d@.take(32) =~= d@);
}

fn hash_pair(left: &Digest, right: &Digest) -> (r: Digest)
    ensures
        r@ == pair(left@, right@),
{
    let mut input: Vec<u8> = Vec::new();
    input.push(1);
    append_digest(&mut input, left);
    append_digest(&mut input, right);
    assert(input@ =~= seq![1u8] + left@ + right@);
    digest(&input)
}

/// Whether two digests agree.
pub(crate) fn same_digest(a: &Digest, b: &Digest) -> (r: bool)
    ensures
        r == (a@ == b@),
{
    let mut i: usize = 0;
    while i < 32
        invariant
            i <= 32,
            forall|j: int| 0 <= j < i ==> a@[j] == b@[j],
        decreases 32 - i,
    {
        if a[i] != b[i] {
            return false;
        }
        i += 1;
    }
    assert(a@ =~= b@);
    true
}

fn level_above(level: &Vec<Digest>) -> (r: Vec<Digest>)
    requires
        level@.len() > 1,
    ensures
        digests(r@) == above(digests(level@)),
{
    let ghost low = digests(level@);
    let n: usize = level.len();
    let half: usize = n / 2 + n % 2;
    let mut r: Vec<Digest> = Vec::new();
    while r.len() < half
        invariant
            n == level@.len(),
            low == digests(level@),
            half == (n + 1) / 2,
            r@.len() <= half,
            forall|k: int| 0 <= k < r@.len() ==> (#[trigger] r@[k])@ == above(low)[k],
        decreases half - r@.len(),
    {
        let i: usize = 2 * r.len();
        assert(low[i as int] == level@[i as int]@);
        let h: Digest = if n - i > 1 {
            assert(low[i + 1] == level@[i + 1]@);
            hash_pair(&level[i], &level[i + 1])
        } else {
            hash_pair(&level[i], &level[i])
        };
        r.push(h);
    }
    assert(digests(r@) =~= above(low));
    r
}

/// A Merkle tree, with all its levels.
#[derive(Debug)]
pub struct MerkleTree {
    levels: Vec<Vec<Digest>>,
}

/// Each level but the last has several nodes and lies below the next; the
/// last has at most one.
spec fn tower(levels: Seq<Vec<Digest>>) -> bool {
    &&& levels.len() > 0
    &&& levels.last()@.len() <= 1
    &&& forall|k: int|
        0 <= k < levels.len() - 1 ==> #[trigger] rests(levels, k)
}

spec fn rests(levels: Seq<Vec<Digest>>, k: int) -> bool {
    levels[k]@.len() > 1 && digests(levels[k + 1]@) == above(digests(levels[k]@))
}

impl View for MerkleTree {
    type V = Seq<Seq<u8>>;

    /// The leaf hashes.
    closed spec fn view(&self) -> Seq<Seq<u8>> {
        digests(self.levels@[0]@)
    }
}

proof fn lemma_root_of_level(levels: Seq<Vec<Digest>>, k: int)
    requires
        0 <= k < levels.len(),
        forall|j: int| 0 <= j < levels.len() - 1 ==> #[trigger] rests(levels, j),
    ensures
        root_of(digests(levels[0]@)) == root_of(digests(levels[k]@)),
    decreases k,
{
    if k > 0 {
        lemma_root_of_level(levels, k - 1);
        assert(rests(levels, k - 1));
    }
}

impl MerkleTree {
    #[verifier::type_invariant]
    spec fn inv(&self) -> bool {
        tower(self.levels@)
    }

    /// The tree over the given leaf hashes.
    pub fn build(leaf_hashes: Vec<Digest>) -> (r: Self)
        ensures
            r@ == digests(leaf_hashes@),
    {
        let mut levels: Vec<Vec<Digest>> = Vec::new();
        let mut size: usize = leaf_hashes.len();
        levels.push(leaf_hashes);
        while size > 1
            invariant
                levels@.len() > 0,
                levels@[0]@ == leaf_hashes@,
                size == levels@.last()@.len(),
                forall|k: int| 0 <= k < levels@.len() - 1 ==> #[trigger] rests(levels@, k),
            decreases size,
        {
            let top: usize = levels.len() - 1;
            let next: Vec<Digest> = level_above(&levels[top]);
            let ghost before = levels@;
            proof {
                assert(digests(next@).len() == above(digests(before.last()@)).len());
            }
            size = next.len();
            levels.push(next);
            proof {
                assert forall|k: int| 0 <= k < levels@.len() - 1 implies #[trigger] rests(
                    levels@,
                    k,
                ) by {
                    if k < before.len() - 1 {
                        assert(rests(before, k));
                        assert(levels@[k] == before[k]);
                        assert(levels@[k + 1] == before[k + 1]);
                    }
                }
            }
        }
        MerkleTree { levels }
    }

    /// The root over all leaves: zeros for an empty tree, the leaf itself for
    /// a tree of one.
    pub fn root(&self) -> (r: Digest)
        ensures
            r@ == root_of(self@),
    {
        proof {
            use_type_invariant(self);
            lemma_root_of_level(self.levels@, self.levels@.len() - 1);
        }
        let last: &Vec<Digest> = &self.levels[self.levels.len() - 1];
        if last.len() == 0 {
            let zero: Digest = [0u8;32];
            assert(zero@ =~= Seq::new(32, |i: int| 0u8));
            zero
        } else {
            assert(digests(last@)[0] == last@[0]@);
            last[0]
        }
    }

    /// The number of leaves.
    pub fn len(&self) -> (r: usize)
        ensures
            r == self@.len(),
    {
        proof {
            use_type_invariant(self);
        }
        self.levels[0].len()
    }

    /// Whether there are no leaves.
    pub fn is_empty(&self) -> (r: bool)
        ensures
            r == (self@.len() == 0),
    {
        self.len() == 0
    }

    /// The proof that the leaf at `leaf_index` is part of the tree; `None` if
    /// there is no such leaf.
    pub fn inclusion_proof(&self, leaf_index: usize) -> (r: Option<MerkleProof>)
        ensures
            r is Some <==> leaf_index < self@.len(),
            r is Some ==> r->0.leaf_index == leaf_index && r->0.leaf_hash@
                == self@[leaf_index as int] && digests(r->0.siblings@) == partners(
                self@,
                leaf_index as int,
            ),
    {
        proof {
            use_type_invariant(self);
        }
        if leaf_index >= self.len() {
            return None;
        }
        let ghost levels = self.levels@;
        let mut siblings: Vec<Digest> = Vec::new();
        let mut i: usize = leaf_index;
        let mut k: usize = 0;
        let top: usize = self.levels.len() - 1;
        proof {
            assert(digests(siblings@) + partners(self@, i as int) =~= partners(self@, i as int));
        }
        while k < top
            invariant
                levels == self.levels@,
                tower(levels),
                k <= top,
                top == levels.len() - 1,
                i < levels[k as int]@.len(),
                digests(siblings@) + partners(digests(levels[k as int]@), i as int) == partners(
                    self@,
                    leaf_index as int,
                ),
            decreases top - k,
        {
            let level: &Vec<Digest> = &self.levels[k];
            let ghost low = digests(level@);
            let ghost before = siblings@;
            assert(rests(levels, k as int));
            let at: usize = if i % 2 == 1 {
                i - 1
            } else if i + 1 < level.len() {
                i + 1
            } else {
                i
            };
            let s: Digest = level[at];
            siblings.push(s);
            proof {
                assert(low[at as int] == level@[at as int]@);
                assert(s@ == partner(low, i as int));
                assert(digests(siblings@) =~= digests(before).push(s@));
                assert(digests(levels[k + 1]@).len() == above(low).len());
                assert(partners(low, i as int) == seq![s@] + partners(above(low), i as int / 2));
                assert(digests(before) + (seq![s@] + partners(above(low), i as int / 2))
                    =~= digests(siblings@) + partners(above(low), i as int / 2));
            }
            i = i / 2;
            k += 1;
        }
        proof {
            assert(digests(siblings@) + partners(digests(levels[top as int]@), i as int)
                =~= digests(siblings@));
            assert(digests(levels[0]@)[leaf_index as int] == levels[0]@[leaf_index as int]@);
        }
        Some(
            MerkleProof {
                leaf_index: leaf_index as u64,
                leaf_hash: self.levels[0][leaf_index],
                siblings,
            },
        )
    }
}

impl Default for MerkleTree {
    fn default() -> (r: Self)
        ensures
            r@.len() == 0,
    {
        MerkleTree::build(Vec::new())
    }
}

impl Clone for MerkleTree {
    fn clone(&self) -> (r: Self)
        ensures
            r@ == self@,
    {
        proof {
            use_type_invariant(self);
        }
        let mut leaves: Vec<Digest> = Vec::new();
        let mut i: usize = 0;
        while i < self.levels[0].len()
            invariant
                self.levels@.len() > 0,
                i <= self.levels@[0]@.len(),
                leaves@ == self.levels@[0]@.take(i as int),
            decreases self.levels@[0]@.len() - i,
        {
            leaves.push(self.levels[0][i]);
            proof {
                assert(self.levels@[0]@.take(i + 1) =~= self.levels@[0]@.take(i as int).push(
                    self.levels@[0]@[i as int],
                ));
            }
            i += 1;
        }
        assert(leaves@ =~= self.levels@[0]@);
        MerkleTree::build(leaves)
    }
}

/// Evidence that a leaf is part of a tree with a given root.
#[derive(Clone, Debug)]
pub struct MerkleProof {
    pub leaf_index: u64,
    pub leaf_hash: Digest,
    pub siblings: Vec<Digest>,
}

impl MerkleProof {
    /// Recomputes the root from the leaf and its siblings and compares it
    /// with `expected_root`.
    pub fn verify(&self, expected_root: &Digest) -> (r: bool)
        ensures
            r == (climbed(self.leaf_hash@, self.leaf_index as int, digests(self.siblings@))
                == expected_root@),
    {
        let mut current: Digest = self.leaf_hash;
        let mut i: u64 = self.leaf_index;
        let mut k: usize = 0;
        let ghost all = digests(self.siblings@);
        proof {
            assert(all.skip(0) =~= all);
        }
        while k < self.siblings.len()
            invariant
                k <= self.siblings@.len(),
                all == digests(self.siblings@),
                climbed(current@, i as int, all.skip(k as int)) == climbed(
                    self.leaf_hash@,
                    self.leaf_index as int,
                    all,
                ),
            decreases self.siblings@.len() - k,
        {
            let sibling: Digest = self.siblings[k];
            proof {
                assert(all.skip(k as int)[0] == sibling@);
                assert(all.skip(k as int).drop_first() =~= all.skip(k + 1));
            }
            current = if i % 2 == 0 {
                hash_pair(&current, &sibling)
            } else {
                hash_pair(&sibling, &current)
            };
            i = i / 2;
            k += 1;
        }
        same_digest(&current, expected_root)
    }
}

/// The proof of every leaf leads to the root.
pub proof fn every_proof_verifies(level: Seq<Seq<u8>>, i: int)
    requires
        0 <= i < level.len(),
    ensures
        climbed(level[i], i, partners(level, i)) == root_of(level),
    decreases level.len(),
{
    if level.len() > 1 {
        let up = above(level);
        every_proof_verifies(up, i / 2);
        let s = partners(level, i);
        assert(s.drop_first() =~= partners(up, i / 2));
        if i % 2 == 0 {
            assert(2 * (i / 2) == i);
            assert(up[i / 2] == pair(level[i], s[0]));
        } else {
            assert(2 * (i / 2) == i - 1);
            assert(up[i / 2] == pair(s[0], level[i]));
        }
    }
}

/// All hashes of a level have the size of a digest.
pub open spec fn sized(level: Seq<Seq<u8>>) -> bool {
    forall|i: int| 0 <= i < level.len() ==> (#[trigger] level[i]).len() == HASH_SIZE
}

/// The inputs that are hashed to get from a level to the one above.
pub open spec fn inputs(level: Seq<Seq<u8>>) -> Seq<Seq<u8>> {
    Seq::new(
        ((level.len() + 1) / 2) as nat,
        |i: int| pair_input(level[2 * i], partner(level, 2 * i)),
    )
}

/// All inputs that are hashed to get from a level to the root.
pub open spec fn inputs_over(level: Seq<Seq<u8>>) -> Seq<Seq<u8>>
    decreases level.len(),
{
    if level.len() <= 1 {
        Seq::empty()
    } else {
        inputs(level) + inputs_over(above(level))
    }
}

/// The inputs that are hashed on the way up past `siblings`.
pub open spec fn inputs_past(h: Seq<u8>, i: int, siblings: Seq<Seq<u8>>) -> Seq<Seq<u8>>
    decreases siblings.len(),
{
    if siblings.len() == 0 {
        Seq::empty()
    } else {
        let input = if i % 2 == 0 {
            pair_input(h, siblings[0])
        } else {
            pair_input(siblings[0], h)
        };
        seq![input] + inputs_past(blake3_of(input)@, i / 2, siblings.drop_first())
    }
}

/// The children of a node can be read off what is hashed for it.
proof fn lemma_pair_input(a: Seq<u8>, b: Seq<u8>, c: Seq<u8>, d: Seq<u8>)
    requires
        a.len() == HASH_SIZE,
        b.len() == HASH_SIZE,
        c.len() == HASH_SIZE,
        d.len() == HASH_SIZE,
        pair_input(a, b) == pair_input(c, d),
    ensures
        a == c,
        b == d,
{
    let x = pair_input(a, b);
    let y = pair_input(c, d);
    assert(a =~= x.subrange(1, 33));
    assert(c =~= y.subrange(1, 33));
    assert(b =~= x.subrange(33, 65));
    assert(d =~= y.subrange(33, 65));
}

/// A clash further on is a clash.
proof fn lemma_clash_later(
    x: Seq<Seq<u8>>,
    xs: Seq<Seq<u8>>,
    y: Seq<Seq<u8>>,
    ys: Seq<Seq<u8>>,
)
    requires
        x.len() == y.len(),
        clash(xs, ys),
    ensures
        clash(x + xs, y + ys),
{
    let k = choose|k: int| 0 <= k < xs.len() && k < ys.len() && #[trigger] collide(xs[k], ys[k]);
    assert(collide((x + xs)[x.len() + k], (y + ys)[x.len() + k]));
}

/// Two different leaves do not lead to one root from one place, past as many
/// siblings, unless two inputs that are hashed at one height collide: a proof
/// cannot be bent to another leaf.
pub proof fn proofs_are_binding(
    h: Seq<u8>,
    s: Seq<Seq<u8>>,
    other: Seq<u8>,
    t: Seq<Seq<u8>>,
    i: int,
)
    requires
        h.len() == HASH_SIZE,
        other.len() == HASH_SIZE,
        sized(s),
        sized(t),
        s.len() == t.len(),
        h != other,
        !clash(inputs_past(h, i, s), inputs_past(other, i, t)),
    ensures
        climbed(h, i, s) != climbed(other, i, t),
    decreases s.len(),
{
    if s.len() > 0 {
        let x = if i % 2 == 0 {
            pair_input(h, s[0])
        } else {
            pair_input(s[0], h)
        };
        let y = if i % 2 == 0 {
            pair_input(other, t[0])
        } else {
            pair_input(t[0], other)
        };
        if x == y {
            if i % 2 == 0 {
                lemma_pair_input(h, s[0], other, t[0]);
            } else {
                lemma_pair_input(s[0], h, t[0], other);
            }
        }
        let up = blake3_of(x)@;
        let up_other = blake3_of(y)@;
        if up == up_other {
            assert(collide(inputs_past(h, i, s)[0], inputs_past(other, i, t)[0]));
        }
        if clash(
            inputs_past(up, i / 2, s.drop_first()),
            inputs_past(up_other, i / 2, t.drop_first()),
        ) {
            lemma_clash_later(
                seq![x],
                inputs_past(up, i / 2, s.drop_first()),
                seq![y],
                inputs_past(up_other, i / 2, t.drop_first()),
            );
        }
        proofs_are_binding(up, s.drop_first(), up_other, t.drop_first(), i / 2);
    }
}

/// A leaf and a node never have the same input hashed for them.
pub proof fn leaves_are_not_pairs(data: Seq<u8>, l: Seq<u8>, r: Seq<u8>)
    ensures
        leaf_input(data) != pair_input(l, r),
{
    assert(leaf_input(data)[0] != pair_input(l, r)[0]);
}

/// Two different lists of as many leaves have different roots, unless two
/// inputs that are hashed at one place of the two trees collide.
pub proof fn roots_tell_leaves_apart(a: Seq<Seq<u8>>, b: Seq<Seq<u8>>)
    requires
        sized(a),
        sized(b),
        a.len() == b.len(),
        a != b,
        !clash(inputs_over(a), inputs_over(b)),
    ensures
        root_of(a) != root_of(b),
    decreases a.len(),
{
    let i = choose|i: int| 0 <= i < a.len() && a[i] != b[i];
    if !(exists|i: int| 0 <= i < a.len() && a[i] != b[i]) {
        assert(a =~= b);
    }
    if a.len() > 1 {
        if above(a) == above(b) {
            let k = i / 2;
            assert(above(a)[k] == above(b)[k]);
            assert(2 * k == i || 2 * k + 1 == i);
            let x = inputs(a)[k];
            let y = inputs(b)[k];
            if x == y {
                lemma_pair_input(a[2 * k], partner(a, 2 * k), b[2 * k], partner(b, 2 * k));
            }
            assert(blake3_of(x)@ == above(a)[k]);
            assert(blake3_of(y)@ == above(b)[k]);
            assert(collide(inputs_over(a)[k], inputs_over(b)[k]));
        } else {
            if clash(inputs_over(above(a)), inputs_over(above(b))) {
                lemma_clash_later(
                    inputs(a),
                    inputs_over(above(a)),
                    inputs(b),
                    inputs_over(above(b)),
                );
            }
            roots_tell_leaves_apart(above(a), above(b));
        }
    }
}

} // verus!
