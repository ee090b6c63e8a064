use microscope_memory::merkle::MerkleTree;

#[test]
fn test_build_single_leaf() {
    let data = b"hello";
    let tree = MerkleTree::build(&[data.as_slice()]);
    assert_eq!(tree.leaf_count, 1);
    assert!(tree.verify_leaf(0, data));
    assert!(!tree.verify_leaf(0, b"world"));
}

#[test]
fn test_build_two_leaves() {
    let a = b"hello";
    let b = b"world";
    let tree = MerkleTree::build(&[a.as_slice(), b.as_slice()]);
    assert_eq!(tree.leaf_count, 2);
    assert!(tree.verify_leaf(0, a));
    assert!(tree.verify_leaf(1, b));
    assert!(!tree.verify_leaf(0, b));
}

#[test]
fn test_build_odd_leaves() {
    let leaves: Vec<Vec<u8>> = (0..5u8).map(|i| vec![i; 10]).collect();
    let refs: Vec<&[u8]> = leaves.iter().map(|v| v.as_slice()).collect();
    let tree = MerkleTree::build(&refs);
    assert_eq!(tree.leaf_count, 5);
    for (i, leaf) in leaves.iter().enumerate() {
        assert!(tree.verify_leaf(i, leaf));
    }
}

#[test]
fn test_proof_and_verify() {
    let leaves: Vec<Vec<u8>> = (0..8u8).map(|i| vec![i; 20]).collect();
    let refs: Vec<&[u8]> = leaves.iter().map(|v| v.as_slice()).collect();
    let tree = MerkleTree::build(&refs);

    for (i, leaf) in leaves.iter().enumerate() {
        let proof = tree.proof_path(i);
        assert!(
            MerkleTree::verify_proof(&tree.root, leaf, &proof),
            "proof failed for leaf {}",
            i
        );
    }
}

#[test]
fn test_proof_fails_on_tamper() {
    let leaves: Vec<Vec<u8>> = (0..4u8).map(|i| vec![i; 15]).collect();
    let refs: Vec<&[u8]> = leaves.iter().map(|v| v.as_slice()).collect();
    let tree = MerkleTree::build(&refs);

    let proof = tree.proof_path(0);
    let tampered = vec![99u8; 15];
    assert!(!MerkleTree::verify_proof(&tree.root, &tampered, &proof));
}

#[test]
fn test_serialization_roundtrip() {
    let leaves: Vec<Vec<u8>> = (0..10u8).map(|i| vec![i; 30]).collect();
    let refs: Vec<&[u8]> = leaves.iter().map(|v| v.as_slice()).collect();
    let tree = MerkleTree::build(&refs);

    let bytes = tree.to_bytes();
    let restored = MerkleTree::from_bytes(&bytes).expect("deserialize");

    assert_eq!(restored.leaf_count, tree.leaf_count);
    assert_eq!(restored.root, tree.root);
    assert_eq!(restored.nodes.len(), tree.nodes.len());
}

#[test]
fn test_root_changes_on_reorder() {
    let a = b"first";
    let b = b"second";
    let tree1 = MerkleTree::build(&[a.as_slice(), b.as_slice()]);
    let tree2 = MerkleTree::build(&[b.as_slice(), a.as_slice()]);
    assert_ne!(tree1.root, tree2.root, "reordering must change root");
}

// ─── Additional checks ─────────────────────────────

#[test]
fn merkle_known_digest_of_single_leaf() {
    // SHA-256("hello world"), from the sha2 documentation.
    let tree = MerkleTree::build(&[b"hello world".as_slice()]);
    let expected: [u8; 32] = [
        0xb9, 0x4d, 0x27, 0xb9, 0x93, 0x4d, 0x3e, 0x08, 0xa5, 0x2e, 0x52, 0xd7, 0xda, 0x7d, 0xab,
        0xfa, 0xc4, 0x84, 0xef, 0xe3, 0x7a, 0x53, 0x80, 0xee, 0x90, 0x88, 0xf7, 0xac, 0xe2, 0xef,
        0xcd, 0xe9,
    ];
    assert_eq!(tree.root, expected);
    assert_eq!(tree.nodes.len(), 1);
    assert!(tree.proof_path(0).is_empty());
}

#[test]
fn merkle_layout_sizes() {
    // 5 leaves -> 5 + 3 + 2 + 1 nodes.
    let leaves: Vec<Vec<u8>> = (0..5u8).map(|i| vec![i; 3]).collect();
    let refs: Vec<&[u8]> = leaves.iter().map(|v| v.as_slice()).collect();
    let tree = MerkleTree::build(&refs);
    assert_eq!(tree.nodes.len(), 11);
    assert_eq!(tree.root, tree.nodes[10]);
    // The lone fifth leaf is paired with itself.
    let p = tree.proof_path(4);
    assert_eq!(p.len(), 3);
    assert_eq!(p[0], (tree.nodes[4], false));
    for i in 0..5 {
        assert!(MerkleTree::verify_proof(&tree.root, &leaves[i], &tree.proof_path(i)));
    }
}

#[test]
fn merkle_out_of_range_leaf() {
    let tree = MerkleTree::build(&[b"a".as_slice(), b"b".as_slice()]);
    assert!(tree.proof_path(2).is_empty());
    assert!(!tree.verify_leaf(2, b"a"));
}

#[test]
fn merkle_serialized_layout_and_rejections() {
    let tree = MerkleTree::build(&[b"a".as_slice(), b"b".as_slice(), b"c".as_slice()]);
    let bytes = tree.to_bytes();
    assert_eq!(bytes.len(), 8 + 6 * 32);
    assert_eq!(&bytes[0..4], &[3, 0, 0, 0]);
    assert_eq!(&bytes[4..8], &[6, 0, 0, 0]);
    assert_eq!(&bytes[8..40], &tree.nodes[0]);
    let back = MerkleTree::from_bytes(&bytes).unwrap();
    assert_eq!(back.nodes, tree.nodes);
    assert!(MerkleTree::from_bytes(&bytes[..7]).is_none());
    assert!(MerkleTree::from_bytes(&bytes[..bytes.len() - 1]).is_none());
    let mut zero_leaves = bytes.clone();
    zero_leaves[0] = 0;
    assert!(MerkleTree::from_bytes(&zero_leaves).is_none());
}
