use microscope_memory::narrative::NarrativeState;
use microscope_memory::narrative_memory::{NarrativeEpisode, NarrativeMemory};

fn episode(id: u32, title: &str, summary: &str, blocks: Vec<u32>) -> NarrativeEpisode {
    let mut arc = [0u32; 21];
    arc[0] = 0.9f32.to_bits();
    arc[20] = 0.25f32.to_bits();
    NarrativeEpisode {
        timestamp_ms: 1_700_000_000_000 + id as u64,
        episode_id: id,
        title: title.to_string(),
        summary: summary.to_string(),
        block_indices: blocks,
        emotional_arc: arc,
    }
}

#[test]
fn test_empty_narrative() {
    let state = NarrativeState::from_bytes(&[]);
    assert_eq!(state.session_count, 0);
    assert!(state.narrative.is_empty());
}

#[test]
fn narrative_test_save_load_roundtrip() {
    let state = NarrativeState {
        last_update_ms: 1000,
        session_count: 42,
        emotion_bits: [0.5f32.to_bits(); 21],
        narrative: "I feel curiosity, exploring the world.".to_string(),
    };
    let bytes = state.to_bytes();
    assert_eq!(bytes.len(), 106 + state.narrative.len());
    let loaded = NarrativeState::from_bytes(&bytes);
    assert_eq!(loaded.session_count, 42);
    assert_eq!(loaded.last_update_ms, 1000);
    assert_eq!(loaded.emotion_bits, state.emotion_bits);
    assert_eq!(loaded.narrative, "I feel curiosity, exploring the world.");
}

#[test]
fn narrative_file_with_short_text_field() {
    let state = NarrativeState { last_update_ms: 1, session_count: 2, emotion_bits: [7; 21], narrative: "abc".to_string() };
    let mut bytes = state.to_bytes();
    bytes.truncate(107); // the text runs past the end: read as empty
    let loaded = NarrativeState::from_bytes(&bytes);
    assert_eq!(loaded.session_count, 2);
    assert_eq!(loaded.narrative, "");
    // anything but NAR1 gives the empty state
    let other = NarrativeState::from_bytes(&[0u8; 200]);
    assert_eq!(other.session_count, 0);
    assert_eq!(other.emotion_bits, [0; 21]);
}

#[test]
fn episode_roundtrip() {
    let ep = episode(3, "Episode: rust", "Recalled: ownership", vec![1, 2, 3]);
    let bytes = ep.to_bytes();
    assert_eq!(&bytes[0..4], b"NVM1");
    assert_eq!(bytes.len(), 106 + 13 + 19 + 12);
    let back = NarrativeEpisode::from_bytes(&bytes).expect("episode");
    assert_eq!(back.episode_id, 3);
    assert_eq!(back.title, "Episode: rust");
    assert_eq!(back.summary, "Recalled: ownership");
    assert_eq!(back.block_indices, vec![1, 2, 3]);
    assert_eq!(back.emotional_arc, ep.emotional_arc);
    assert!(NarrativeEpisode::from_bytes(&bytes[..119]).is_none());
}

#[test]
fn episode_caps_blocks_and_text() {
    let long = "x".repeat(600);
    let ep = episode(1, &long, "", (0..60).collect());
    let back = NarrativeEpisode::from_bytes(&ep.to_bytes()).expect("episode");
    assert_eq!(back.title.len(), 512);
    assert_eq!(back.summary, "");
    assert_eq!(back.block_indices.len(), 50);
}

#[test]
fn memory_file_roundtrip_and_next_id() {
    let mem = NarrativeMemory {
        episodes: vec![
            episode(4, "Episode: a", "Connected 2 memories: x -> y", vec![10, 11]),
            episode(9, "Episode: b", "Recalled: z", vec![12]),
        ],
        next_id: 10,
    };
    let bytes = mem.to_bytes();
    let loaded = NarrativeMemory::from_bytes(&bytes);
    assert_eq!(loaded.episodes.len(), 2);
    assert_eq!(loaded.episodes[0].episode_id, 4);
    assert_eq!(loaded.episodes[1].title, "Episode: b");
    assert_eq!(loaded.next_id, 10);
    let empty = NarrativeMemory::from_bytes(&[]);
    assert!(empty.episodes.is_empty());
    assert_eq!(empty.next_id, 1);
}

#[test]
fn memory_file_skips_noise_between_episodes() {
    let mut bytes = vec![0xAAu8; 3];
    bytes.extend_from_slice(&episode(2, "Episode: t", "Recalled: s", vec![5]).to_bytes());
    let loaded = NarrativeMemory::from_bytes(&bytes);
    assert_eq!(loaded.episodes.len(), 1);
    assert_eq!(loaded.episodes[0].episode_id, 2);
    assert_eq!(loaded.next_id, 3);
}

#[test]
fn memory_file_keeps_last_fifty() {
    let episodes: Vec<NarrativeEpisode> = (1..=55).map(|i| episode(i, "Episode: n", "Recalled: m", vec![i])).collect();
    let mem = NarrativeMemory { episodes, next_id: 56 };
    let loaded = NarrativeMemory::from_bytes(&mem.to_bytes());
    assert_eq!(loaded.episodes.len(), 50);
    assert_eq!(loaded.episodes[0].episode_id, 6);
    assert_eq!(loaded.next_id, 56);
}

#[test]
fn narrative_memory_try_load_refuses_cut_episode() {
    let mut d: Vec<u8> = b"NVM1".to_vec();
    d.extend_from_slice(&[0u8; 116]);
    // title length pointing past the end
    d[16] = 0xff;
    d[17] = 0xff;
    assert!(NarrativeMemory::try_from_bytes(&d).is_none());
    assert!(NarrativeMemory::try_from_bytes(&[1, 2, 3]).is_some());
}
