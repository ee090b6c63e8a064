use microscope_memory::neuroplasticity::pathway_hash;
use microscope_memory::resonance::path_hash;
use microscope_memory::salience::{InhibitionEntry, SalienceState};

#[test]
fn test_path_hash_deterministic() {
    let h1 = path_hash("/tmp/a");
    let h2 = path_hash("/tmp/a");
    assert_eq!(h1, h2);
    assert_ne!(h1, path_hash("/tmp/b"));
}

// ─── Additional checks ─────────────────────────────

fn fnv(bytes: &[u8]) -> u64 {
    let mut h: u64 = 0xcbf29ce484222325;
    for &b in bytes {
        h = h.wrapping_mul(0x100000001b3) ^ b as u64;
    }
    h
}

#[test]
fn hashes_match_their_definitions() {
    assert_eq!(path_hash(""), 0xcbf29ce484222325);
    assert_eq!(path_hash("ab"), fnv(b"ab"));
    let nodes: Vec<u32> = (1..=12).collect();
    let mut h: u64 = 0xcbf29ce484222325;
    for &n in nodes.iter().take(10) {
        h = h.wrapping_mul(0x100000001b3) ^ n as u64;
    }
    assert_eq!(pathway_hash(&nodes), h);
    assert_eq!(pathway_hash(&nodes[..10]), h);
}

#[test]
fn topic_hash_matches_definition() {
    let text = "hello world";
    let mut h = 0x9e3779b97f4a7c15u64;
    for chunk in text.as_bytes().chunks(8) {
        let mut word = 0u64;
        for (i, &b) in chunk.iter().enumerate() {
            word |= (b as u64) << (i * 8);
        }
        h = h.wrapping_mul(0x517cc1b727220a95).wrapping_add(word);
    }
    assert_eq!(SalienceState::topic_hash(text), h);
    assert_eq!(SalienceState::topic_hash(""), 0x9e3779b97f4a7c15);
}

#[test]
fn test_topic_hash_deterministic() {
    let h1 = SalienceState::topic_hash("hello world");
    let h2 = SalienceState::topic_hash("hello world");
    assert_eq!(h1, h2);
}

#[test]
fn salience_test_save_load_roundtrip() {
    let s = SalienceState {
        inhibitions: vec![
            InhibitionEntry { topic_hash: 100, remaining_bits: 0.5f32.to_bits(), created_ms: 1 },
            InhibitionEntry { topic_hash: 200, remaining_bits: 0.5f32.to_bits(), created_ms: 2 },
        ],
    };
    let bytes = s.to_bytes();
    assert_eq!(bytes.len(), 8 + 2 * 20);
    let loaded = SalienceState::from_bytes(&bytes);
    assert_eq!(loaded.inhibitions.len(), 2);
    assert_eq!(loaded.inhibitions, s.inhibitions);
}

#[test]
fn salience_foreign_or_truncated_files() {
    assert!(SalienceState::from_bytes(b"NOPE\x01\x00\x00\x00").inhibitions.is_empty());
    let mut bytes = b"SAL1".to_vec();
    bytes.extend_from_slice(&2u32.to_le_bytes());
    bytes.extend_from_slice(&[7u8; 20]);
    bytes.extend_from_slice(&[7u8; 19]);
    let loaded = SalienceState::from_bytes(&bytes);
    assert_eq!(loaded.inhibitions.len(), 1);
    assert_eq!(loaded.inhibitions[0].topic_hash, u64::from_le_bytes([7; 8]));
}
