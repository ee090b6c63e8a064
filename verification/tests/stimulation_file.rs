use microscope_memory::mental_stimulation::{
    ActivityRecord, MentalStimulation, DECAY_RATE_BITS, INITIAL_ENGAGEMENT_BITS,
    NOVELTY_THRESHOLD_BITS,
};

fn activity(ts: u64, kind: &str, intensity: f32) -> ActivityRecord {
    ActivityRecord {
        timestamp_ms: ts,
        activity_type: kind.to_string(),
        intensity_bits: intensity.to_bits(),
        engagement_gain_bits: (intensity * 0.2).to_bits(),
    }
}

#[test]
fn stimulation_constants() {
    assert_eq!(f32::from_bits(INITIAL_ENGAGEMENT_BITS), 0.8);
    assert_eq!(f32::from_bits(DECAY_RATE_BITS), 0.001);
    assert_eq!(f32::from_bits(NOVELTY_THRESHOLD_BITS), 0.3);
    let fresh = MentalStimulation::new(77);
    assert_eq!(fresh.last_activity_ms, 77);
    assert!(fresh.activity_history.is_empty());
}

#[test]
fn stimulation_save_load_roundtrip() {
    let mut st = MentalStimulation::new(5);
    st.activity_history.push(activity(10, "recall", 0.5));
    st.activity_history.push(activity(20, "consolidate", 1.0));
    st.engagement_level_bits = 0.6f32.to_bits();
    let bytes = st.to_bytes();
    assert_eq!(&bytes[0..5], b"STIM\x01");
    let loaded = MentalStimulation::from_bytes(&bytes, 999);
    assert_eq!(loaded.activity_history, st.activity_history);
    assert_eq!(loaded.engagement_level_bits, 0.6f32.to_bits());
    assert_eq!(loaded.last_activity_ms, 5);
    assert_eq!(loaded.decay_rate_bits, DECAY_RATE_BITS);
}

#[test]
fn stimulation_foreign_file_and_short_last_activity() {
    let fresh = MentalStimulation::from_bytes(b"nope", 123);
    assert_eq!(fresh.last_activity_ms, 123);
    assert_eq!(fresh.engagement_level_bits, INITIAL_ENGAGEMENT_BITS);
    // a last activity of 17 + 2 bytes is under the reader's 20-byte look-ahead
    let mut st = MentalStimulation::new(1);
    st.activity_history.push(activity(1, "ab", 0.1));
    let loaded = MentalStimulation::from_bytes(&st.to_bytes(), 0);
    assert!(loaded.activity_history.is_empty());
}
