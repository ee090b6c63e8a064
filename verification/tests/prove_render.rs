use microscope_memory::merkle::MerkleTree;
use microscope_memory::prove::{
    best_block, empty_proof, escape_json, hex_str, integrity_status, merkle_evidence, proof_keywords,
    IntegrityStatus,
};

#[test]
fn test_hex_str() {
    assert_eq!(hex_str(&[0xAB, 0xCD]), "abcd");
    assert_eq!(hex_str(&[0x00, 0xFF]), "00ff");
}

#[test]
fn test_escape_json() {
    assert_eq!(escape_json("hello"), "hello");
    assert_eq!(escape_json("he\"llo"), "he\\\"llo");
    assert_eq!(escape_json("line\nnew"), "line\\nnew");
}

#[test]
fn test_integrity_status() {
    assert_ne!(IntegrityStatus::Verified, IntegrityStatus::Failed);
    assert_eq!(IntegrityStatus::NotFound, IntegrityStatus::NotFound);
}

// ─── Additional checks ─────────────────────────────

#[test]
fn prove_integrity_verdicts() {
    assert_eq!(integrity_status(true, true, false), IntegrityStatus::Verified);
    // A Merkle proof that fails against the index's root is a failure, even
    // when the CRC passes.
    assert_eq!(integrity_status(false, true, true), IntegrityStatus::Failed);
    assert_eq!(integrity_status(false, true, false), IntegrityStatus::CrcOnly);
    assert_eq!(integrity_status(true, false, true), IntegrityStatus::Failed);
    assert_eq!(IntegrityStatus::CrcOnly.json_label(), "CRC_ONLY");
    assert_eq!(IntegrityStatus::NotFound.json_label(), "NOT_FOUND");
}

#[test]
fn prove_escape_all_specials_and_hex_empty() {
    assert_eq!(escape_json("a\\b\r\tc"), "a\\\\b\\r\\tc");
    assert_eq!(escape_json("ű"), "ű");
    assert_eq!(hex_str(&[]), "");
    assert_eq!(hex_str(&[0x0F, 0xA0]), "0fa0");
}

#[test]
fn test_empty_proof() {
    let p = empty_proof("test");
    assert_eq!(p.query, "test");
    assert!(!p.proof_valid);
    assert!(!p.crc_valid);
}

#[test]
fn prove_keywords_lowercase_and_skip_short_words() {
    let kws = proof_keywords("I had THIS idea  of ok patent");
    assert_eq!(kws, vec!["had".to_string(), "this".to_string(), "idea".to_string(), "patent".to_string()]);
    assert!(proof_keywords("a an to").is_empty());
    // "éé" is four bytes long, so it counts as a keyword
    assert_eq!(proof_keywords("éé"), vec!["éé".to_string()]);
}

#[test]
fn prove_best_block_prefers_most_hits_then_first() {
    let kws = proof_keywords("rust memory engine");
    let texts = vec![
        "Nothing here".to_string(),
        "A RUST note".to_string(),
        "memory engine in rust".to_string(),
        "Rust memory engine again".to_string(),
    ];
    assert_eq!(best_block(&kws, &texts), Some(2));
    let none = vec!["unrelated".to_string(), "text".to_string()];
    assert_eq!(best_block(&kws, &none), None);
    assert_eq!(best_block(&kws, &[]), None);
}

#[test]
fn prove_merkle_evidence_for_stored_tree() {
    let blocks: Vec<Vec<u8>> = vec![b"alpha".to_vec(), b"beta".to_vec(), b"gamma".to_vec()];
    let refs: Vec<&[u8]> = blocks.iter().map(|b| b.as_slice()).collect();
    let tree = MerkleTree::build(&refs);
    let bytes = tree.to_bytes();
    let stored = [7u8; 32];

    let (root, path, valid) = merkle_evidence(&stored, Some(&bytes), 1, Some(b"beta"));
    assert_eq!(root, hex_str(&tree.root));
    assert_eq!(path.len(), 2);
    assert_eq!(path[0], hex_str(&tree.nodes[0]));
    assert!(valid);

    let (_, _, tampered) = merkle_evidence(&stored, Some(&bytes), 1, Some(b"BETA"));
    assert!(!tampered);

    let (root, path, valid) = merkle_evidence(&stored, None, 1, Some(b"beta"));
    assert_eq!(root, hex_str(&stored));
    assert!(path.is_empty() && !valid);

    let (root, path, valid) = merkle_evidence(&stored, Some(&bytes), 1, None);
    assert_eq!(root, hex_str(&tree.root));
    assert!(path.is_empty() && !valid);

    let (root, _, valid) = merkle_evidence(&stored, Some(&[1, 2, 3]), 0, Some(b"alpha"));
    assert_eq!(root, hex_str(&stored));
    assert!(!valid);
}
