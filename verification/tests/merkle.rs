use latent_db::merkle::{hash_leaf, Digest, MerkleProof, MerkleTree, HASH_SIZE};

fn leaves(n: usize) -> Vec<Digest> {
    (0..n).map(|i| hash_leaf(&i.to_le_bytes())).collect()
}

#[test]
fn empty_tree_has_zero_root_and_no_proofs() {
    let tree = MerkleTree::build(Vec::new());
    assert_eq!(tree.root(), [0u8; HASH_SIZE]);
    assert!(tree.inclusion_proof(0).is_none());
}

#[test]
fn single_leaf_tree_root_is_the_leaf_hash() {
    let leaf = hash_leaf(b"only-record");
    let tree = MerkleTree::build(vec![leaf]);
    assert_eq!(tree.root(), leaf);
    let proof = tree.inclusion_proof(0).unwrap();
    assert!(proof.verify(&tree.root()));
}

#[test]
fn every_leaf_proof_verifies_against_the_root() {
    for n in [1, 2, 3, 4, 5, 8, 13, 17, 64] {
        let tree = MerkleTree::build(leaves(n));
        let root = tree.root();
        for i in 0..n {
            let proof = tree.inclusion_proof(i).unwrap();
            assert!(proof.verify(&root), "leaf {i} of {n} failed to verify");
        }
    }
}

#[test]
fn tampered_leaf_hash_fails_verification() {
    let tree = MerkleTree::build(leaves(10));
    let root = tree.root();
    let mut proof = tree.inclusion_proof(3).unwrap();
    proof.leaf_hash[0] ^= 0xFF;
    assert!(!proof.verify(&root));
}

#[test]
fn tampered_sibling_fails_verification() {
    let tree = MerkleTree::build(leaves(10));
    let root = tree.root();
    let mut proof = tree.inclusion_proof(3).unwrap();
    proof.siblings[0][0] ^= 0xFF;
    assert!(!proof.verify(&root));
}

#[test]
fn out_of_range_leaf_index_returns_none() {
    let tree = MerkleTree::build(leaves(5));
    assert!(tree.inclusion_proof(5).is_none());
}

#[test]
fn root_changes_when_leaves_change() {
    let a = MerkleTree::build(leaves(5)).root();
    let b = MerkleTree::build(leaves(6)).root();
    assert_ne!(a, b);
}

#[test]
fn leaves_are_hashed_with_a_prefix_of_zero() {
    let mut tagged = vec![0u8];
    tagged.extend_from_slice(b"record");
    assert_eq!(hash_leaf(b"record"), *blake3::hash(&tagged).as_bytes());
    assert_ne!(hash_leaf(b"record"), *blake3::hash(b"record").as_bytes());
}

#[test]
fn pairs_are_hashed_with_a_prefix_of_one() {
    let l = leaves(2);
    let mut tagged = vec![1u8];
    tagged.extend_from_slice(&l[0]);
    tagged.extend_from_slice(&l[1]);
    let tree = MerkleTree::build(l);
    assert_eq!(tree.root(), *blake3::hash(&tagged).as_bytes());
}

#[test]
fn an_odd_leaf_is_paired_with_itself() {
    let l = leaves(3);
    let again = vec![l[0], l[1], l[2], l[2]];
    assert_eq!(MerkleTree::build(l).root(), MerkleTree::build(again).root());
}

#[test]
fn trees_know_their_length() {
    let tree = MerkleTree::build(leaves(7));
    assert_eq!(tree.len(), 7);
    assert!(!tree.is_empty());
    assert!(MerkleTree::default().is_empty());
    assert_eq!(MerkleTree::default().root(), [0u8; HASH_SIZE]);
    assert_eq!(tree.clone().root(), tree.root());
}

#[test]
fn a_proof_holds_for_its_own_root_only() {
    let tree = MerkleTree::build(leaves(9));
    let other = MerkleTree::build(leaves(10));
    let proof: MerkleProof = tree.inclusion_proof(4).unwrap();
    assert_eq!(proof.leaf_index, 4);
    assert_eq!(proof.leaf_hash, leaves(9)[4]);
    assert!(proof.verify(&tree.root()));
    assert!(!proof.verify(&other.root()));
}
