use microscope_memory::mirror::{BlockResonance, MirrorState, ResonanceEcho};
use microscope_memory::predictive_cache::{CacheCounters, Prediction, PredictiveCache, RecallOutcome};

#[test]
fn mirror_test_save_load_roundtrip() {
    let state = MirrorState {
        echoes: vec![ResonanceEcho {
            timestamp_ms: 1000,
            trigger_hash: 42,
            echo_hash: 99,
            similarity_bits: 0.75f32.to_bits(),
            shared_blocks: vec![1, 2, 3],
        }],
        block_resonance: vec![
            BlockResonance { block_idx: 1, echo_count: 5, strength_bits: 2.5f32.to_bits() },
            BlockResonance { block_idx: 2, echo_count: 3, strength_bits: 1.0f32.to_bits() },
        ],
    };
    let bytes = state.to_bytes();
    assert_eq!(&bytes[0..4], b"RES1");
    assert_eq!(bytes.len(), 12 + 30 + 12 + 2 * 12);
    let loaded = MirrorState::from_bytes(&bytes).expect("mirror file");
    assert_eq!(loaded.echoes.len(), 1);
    assert_eq!(loaded.echoes[0], state.echoes[0]);
    assert_eq!(loaded.block_resonance.len(), 2);
    let b1 = loaded.block_resonance.iter().find(|b| b.block_idx == 1).expect("block 1");
    assert_eq!(b1.echo_count, 5);
    assert!((f32::from_bits(b1.strength_bits) - 2.5).abs() < 0.001);
}

#[test]
fn mirror_file_rejects_foreign_and_dedups_blocks() {
    assert!(MirrorState::from_bytes(b"RES").is_none());
    assert!(MirrorState::from_bytes(b"XXXX\x00\x00\x00\x00\x00\x00\x00\x00").is_none());
    let mut bytes = b"RES1".to_vec();
    bytes.extend_from_slice(&0u32.to_le_bytes());
    bytes.extend_from_slice(&2u32.to_le_bytes());
    for (count, strength) in [(1u32, 1u32), (9, 7)] {
        bytes.extend_from_slice(&4u32.to_le_bytes());
        bytes.extend_from_slice(&count.to_le_bytes());
        bytes.extend_from_slice(&strength.to_le_bytes());
    }
    let loaded = MirrorState::from_bytes(&bytes).expect("mirror file");
    assert_eq!(loaded.block_resonance, vec![BlockResonance { block_idx: 4, echo_count: 9, strength_bits: 7 }]);
}

#[test]
fn predictive_cache_test_save_load_roundtrip() {
    let cache = PredictiveCache {
        predictions: vec![
            Prediction { predicted_query_hash: 0xAA, blocks: vec![10, 20, 30], confidence_bits: 0.8f32.to_bits(), pattern_id: 1, created_ms: 1000 },
            Prediction { predicted_query_hash: 0xBB, blocks: vec![], confidence_bits: 0.5f32.to_bits(), pattern_id: 2, created_ms: 2000 },
        ],
        counters: CacheCounters { total_predictions: 5, total_hits: 3, total_misses: 1, total_partial_hits: 1 },
    };
    let bytes = cache.to_bytes();
    assert_eq!(bytes.len(), 24 + (26 + 12) + 26);
    let loaded = PredictiveCache::from_bytes(&bytes);
    assert_eq!(loaded.predictions, cache.predictions);
    assert_eq!(loaded.counters, cache.counters);
}

#[test]
fn predictive_cache_drops_prediction_whose_blocks_do_not_fit() {
    let cache = PredictiveCache {
        predictions: vec![Prediction { predicted_query_hash: 1, blocks: vec![7, 8], confidence_bits: 0, pattern_id: 0, created_ms: 0 }],
        counters: CacheCounters { total_predictions: 1, total_hits: 0, total_misses: 0, total_partial_hits: 0 },
    };
    let bytes = cache.to_bytes();
    let loaded = PredictiveCache::from_bytes(&bytes[..bytes.len() - 1]);
    assert!(loaded.predictions.is_empty());
    assert_eq!(loaded.counters.total_predictions, 1);
    let empty = PredictiveCache::from_bytes(b"short");
    assert!(empty.predictions.is_empty());
    assert_eq!(empty.counters, CacheCounters { total_predictions: 0, total_hits: 0, total_misses: 0, total_partial_hits: 0 });
}

#[test]
fn mirror_and_cache_try_loaders_refuse_cut_heads() {
    // a RES1 file announcing one echo with only 28 bytes of it present
    let mut m: Vec<u8> = b"RES1".to_vec();
    m.extend_from_slice(&1u32.to_le_bytes());
    m.extend_from_slice(&0u32.to_le_bytes());
    m.extend_from_slice(&[0u8; 28]);
    assert!(MirrorState::try_from_bytes(&m).is_err());
    assert!(matches!(MirrorState::try_from_bytes(b"nope"), Ok(None)));

    let mut c: Vec<u8> = b"PRC1".to_vec();
    c.extend_from_slice(&[0u8; 20]);
    c[4] = 1;
    c.extend_from_slice(&[0u8; 22]);
    assert!(PredictiveCache::try_from_bytes(&c).is_none());
    assert!(PredictiveCache::try_from_bytes(&[]).is_some());
}

fn one_prediction(hash: u64, blocks: Vec<u32>) -> PredictiveCache {
    let mut cache = PredictiveCache::new();
    cache.predictions.push(Prediction {
        predicted_query_hash: hash,
        blocks,
        confidence_bits: 0.5f32.to_bits(),
        pattern_id: 0,
        created_ms: 0,
    });
    cache
}

#[test]
fn test_evaluate_hit() {
    let mut cache = one_prediction(0xAA, vec![10, 20, 30]);
    let actual = vec![10u32, 20, 30, 40];
    let r = cache.evaluate(0xAA, &actual);
    assert_eq!(r, Some((RecallOutcome::Hit, 3, 0)));
    let (hit_type, overlap, _) = r.unwrap();
    assert_eq!(hit_type.label(), "hit");
    assert_eq!(overlap, 3);
    assert_eq!(cache.counters.total_hits, 1);
    assert_eq!(cache.counters.total_misses, 0);
}

#[test]
fn test_evaluate_miss() {
    let mut cache = one_prediction(0xAA, vec![10, 20, 30]);
    let actual = vec![100u32, 200, 300];
    let r = cache.evaluate(0xAA, &actual);
    assert_eq!(r, Some((RecallOutcome::Miss, 0, 0)));
    let (hit_type, overlap, _) = r.unwrap();
    assert_eq!(hit_type.label(), "miss");
    assert_eq!(overlap, 0);
    assert_eq!(cache.counters.total_misses, 1);
    assert_eq!(cache.counters.total_hits, 0);
}

#[test]
fn test_evaluate_no_prediction() {
    let mut cache = PredictiveCache::new();
    let r = cache.evaluate(0xAA, &[10, 20]);
    let hit_type = r.map(|(o, _, _)| o.label()).unwrap_or("none");
    assert_eq!(hit_type, "none");
}

#[test]
fn cache_evaluate_counts_partial() {
    // One of eight predicted blocks: fewer than half and fewer than three.
    let mut cache = one_prediction(0xAA, vec![1, 2, 3, 4, 5, 6, 7, 8]);
    let r = cache.evaluate(0xAA, &[1, 100]);
    assert_eq!(r, Some((RecallOutcome::Partial, 1, 0)));
    assert_eq!(r.unwrap().0.label(), "partial");
    assert_eq!(cache.counters.total_partial_hits, 1);
    // Three of eight is a hit though under half.
    let mut cache = one_prediction(0xAA, vec![1, 2, 3, 4, 5, 6, 7, 8]);
    assert_eq!(cache.evaluate(0xAA, &[1, 2, 3]), Some((RecallOutcome::Hit, 3, 0)));
}

#[test]
fn cache_evaluate_elsewhere_counts_nothing() {
    let mut cache = PredictiveCache::new();
    assert_eq!(cache.evaluate(0xAA, &[10, 20]), None);
    assert_eq!(cache.counters, PredictiveCache::new().counters);
    let cache = one_prediction(0xBB, vec![10]);
    assert_eq!(cache.assess(0xAA, &[10]), None);
}

#[test]
fn cache_prefix_candidates_follow_the_trail() {
    let cache = PredictiveCache::new();
    // Trail AA, pattern AA -> BB: predicts BB after a prefix of one.
    assert_eq!(cache.prefix_candidates(&[0xAA], &[0xAA, 0xBB]), vec![(1, 0xBB)]);
    // Trail CC AA: prefix of two (CC AA) matches pattern CC AA DD.
    assert_eq!(cache.prefix_candidates(&[0x11, 0xCC, 0xAA], &[0xCC, 0xAA, 0xDD]), vec![(2, 0xDD)]);
    // No match, and an empty trail, give nothing.
    assert!(cache.prefix_candidates(&[0x01], &[0xAA, 0xBB]).is_empty());
    assert!(cache.prefix_candidates(&[], &[0xAA, 0xBB]).is_empty());
    // A hash already predicted is not predicted again.
    let held = one_prediction(0xBB, vec![10]);
    assert!(held.prefix_candidates(&[0xAA], &[0xAA, 0xBB]).is_empty());
    // Trail AA AA with pattern AA AA AA: prefixes one and two both give AA once.
    assert_eq!(cache.prefix_candidates(&[0xAA, 0xAA], &[0xAA, 0xAA, 0xAA]), vec![(1, 0xAA)]);
}
