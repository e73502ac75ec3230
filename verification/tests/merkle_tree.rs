use advz::field::Scalar;
use advz::hash::HashNode;
use advz::merkle_tree::{hash_leaf, hash_node, merkle_climb, MerkleTree};
use sha2::{Digest, Sha256};

fn leaves(n: u8) -> Vec<HashNode> {
    (0..n).map(|i| HashNode::of(&[i])).collect()
}

#[test]
fn digest_is_sha256() {
    let expected: [u8; 32] = Sha256::digest(b"abc").into();
    assert_eq!(HashNode::of(b"abc").bytes, expected);
    assert_eq!(expected[0], 0xba);
    assert!(HashNode::of(b"abc").same(&HashNode { bytes: expected }));
    assert!(!HashNode::of(b"abc").same(&HashNode::of(b"abd")));
}

#[test]
fn leaf_and_node_digests_are_told_apart_by_their_first_byte() {
    let one = Scalar::one();
    let mut data = vec![0u8];
    data.extend_from_slice(&one.bytes);
    data.extend_from_slice(&Scalar::zero().bytes);
    assert_eq!(hash_leaf(&[one, Scalar::zero()]), HashNode::of(&data));
    let (l, r) = (HashNode::of(b"l"), HashNode::of(b"r"));
    let mut data = vec![1u8];
    data.extend_from_slice(&l.bytes);
    data.extend_from_slice(&r.bytes);
    assert_eq!(hash_node(&l, &r), HashNode::of(&data));
}

#[test]
fn tree_over_three_leaves_pads_the_fourth() {
    let l = leaves(3);
    let tree = MerkleTree::from_leaves(l.clone());
    assert_eq!(tree.height(), 2);
    let pad = HashNode::of(&[]);
    let root = hash_node(&hash_node(&l[0], &l[1]), &hash_node(&l[2], &pad));
    assert_eq!(tree.root(), root);
    assert_eq!(tree.node_at(1, 1), hash_node(&l[2], &pad));
    assert_eq!(tree.node_at(0, 3), pad);
    assert_eq!(tree.lookup(0, 2).path, vec![pad, hash_node(&l[0], &l[1])]);
    assert_eq!(tree.lookup(1, 0).path, vec![hash_node(&l[2], &pad)]);
}

#[test]
fn trees_over_no_leaf_and_one_leaf_have_no_level_above() {
    let tree = MerkleTree::from_leaves(Vec::new());
    assert_eq!(tree.height(), 0);
    assert_eq!(tree.root(), HashNode::of(&[]));
    let l = leaves(1);
    let tree = MerkleTree::from_leaves(l.clone());
    assert_eq!(tree.height(), 0);
    assert_eq!(tree.root(), l[0]);
    assert!(tree.lookup(0, 0).path.is_empty());
}

#[test]
fn every_proof_leads_to_the_root() {
    for n in 1..=9u8 {
        let l = leaves(n);
        let tree = MerkleTree::from_leaves(l.clone());
        for i in 0..n as usize {
            let proof = tree.lookup(0, i);
            assert_eq!(proof.path.len(), tree.height());
            assert_eq!(merkle_climb(&l[i], i as u64, &proof.path), tree.root());
            let other = (i + 1) % n as usize;
            if other != i {
                assert_ne!(merkle_climb(&l[i], other as u64, &proof.path), tree.root());
            }
        }
    }
}
