use microscope_memory::resonance::{
    decode_pulses, encode_pulses, try_decode_pulses, load_resonance_state, path_hash, FieldCell, Pulse, ReceivedPulse,
    ResonanceState,
};

fn act(x: f32, y: f32, z: f32, s: f32) -> (u32, u32, u32, u32) {
    (x.to_bits(), y.to_bits(), z.to_bits(), s.to_bits())
}

fn pulse(source_id: u64, timestamp_ms: u64, query_hash: u64, acts: Vec<(u32, u32, u32, u32)>, layer_hint: u8, strength: f32) -> Pulse {
    Pulse { source_id, timestamp_ms, query_hash, activations: acts, layer_hint, strength_bits: strength.to_bits() }
}

#[test]
fn test_wire_format_roundtrip() {
    let pulses = vec![
        pulse(42, 12345, 999, vec![act(0.1, 0.2, 0.3, 0.9), act(0.4, 0.5, 0.6, 0.7)], 1, 0.8),
        pulse(99, 67890, 888, vec![act(0.7, 0.8, 0.9, 0.5)], 3, 0.6),
    ];

    let encoded = encode_pulses(&pulses);
    let decoded = decode_pulses(&encoded);

    assert_eq!(decoded.len(), 2);
    assert_eq!(decoded[0].source_id, 42);
    assert_eq!(decoded[0].activations.len(), 2);
    assert!((f32::from_bits(decoded[0].activations[0].0) - 0.1).abs() < 0.001);
    assert_eq!(decoded[1].query_hash, 888);
    assert_eq!(decoded[1].layer_hint, 3);
}

#[test]
fn wire_packet_layout() {
    let encoded = encode_pulses(&[pulse(1, 2, 3, vec![act(1.0, 2.0, 3.0, 4.0)], 7, 0.5)]);
    assert_eq!(&encoded[0..4], b"PXC1");
    assert_eq!(&encoded[4..8], &1u32.to_le_bytes());
    assert_eq!(encoded.len(), 8 + 31 + 16);
    assert_eq!(encoded[8 + 24], 7);
    assert_eq!(&encoded[8 + 29..8 + 31], &1u16.to_le_bytes());
    assert_eq!(&encoded[8 + 31..8 + 35], &1.0f32.to_le_bytes());
}

#[test]
fn wire_rejects_foreign_and_stops_at_truncation() {
    assert!(decode_pulses(b"XXXX\x01\x00\x00\x00").is_empty());
    assert!(decode_pulses(b"PXC").is_empty());
    let full = encode_pulses(&[
        pulse(1, 2, 3, vec![act(1.0, 2.0, 3.0, 4.0), act(5.0, 6.0, 7.0, 8.0)], 0, 1.0),
    ]);
    // drop the last activation: the pulse is read with the one that fits
    let cut = &full[..full.len() - 16];
    let decoded = decode_pulses(cut);
    assert_eq!(decoded.len(), 1);
    assert_eq!(decoded[0].activations.len(), 1);
}

#[test]
fn resonance_test_save_load_roundtrip() {
    let mut state = ResonanceState { instance_id: 42, outgoing: Vec::new(), incoming: Vec::new(), field: Vec::new() };
    state.outgoing.push(pulse(42, 1000, 100, vec![act(0.1, 0.2, 0.3, 0.9)], 1, 0.8));
    state.incoming.push(ReceivedPulse {
        pulse: pulse(99, 2000, 200, vec![act(0.4, 0.5, 0.6, 0.7)], 2, 0.6),
        local_matches: 3,
        integrated: true,
    });
    state.field.push(FieldCell { qx: 2, qy: 4, qz: 6, value_bits: 1.5f32.to_bits() });

    let bytes = state.to_bytes();
    let loaded = load_resonance_state(&bytes).expect("state file");
    assert_eq!(loaded.instance_id, 42);
    assert_eq!(loaded.outgoing.len(), 1);
    assert_eq!(loaded.outgoing[0].query_hash, 100);
    assert_eq!(loaded.incoming.len(), 1);
    assert_eq!(loaded.incoming[0].local_matches, 3);
    assert!(loaded.incoming[0].integrated);
    let cell = loaded.field.iter().find(|c| (c.qx, c.qy, c.qz) == (2, 4, 6)).expect("cell");
    assert!((f32::from_bits(cell.value_bits) - 1.5).abs() < 0.001);
}

#[test]
fn state_file_negative_cells_and_duplicates() {
    let mut state = ResonanceState { instance_id: 7, outgoing: Vec::new(), incoming: Vec::new(), field: Vec::new() };
    state.field.push(FieldCell { qx: -5, qy: 0, qz: -32768, value_bits: 11 });
    state.field.push(FieldCell { qx: 1, qy: 1, qz: 1, value_bits: 12 });
    let mut bytes = state.to_bytes();
    // a third cell repeating the first position replaces it
    bytes[20..24].copy_from_slice(&3u32.to_le_bytes());
    bytes.extend_from_slice(&(-5i16).to_le_bytes());
    bytes.extend_from_slice(&0i16.to_le_bytes());
    bytes.extend_from_slice(&(-32768i16).to_le_bytes());
    bytes.extend_from_slice(&99u32.to_le_bytes());
    let loaded = load_resonance_state(&bytes).expect("state file");
    assert_eq!(loaded.field.len(), 2);
    assert_eq!(loaded.field[0], FieldCell { qx: -5, qy: 0, qz: -32768, value_bits: 99 });
    assert_eq!(loaded.field[1].value_bits, 12);
}

#[test]
fn state_file_needs_header() {
    assert!(load_resonance_state(b"PLS1").is_none());
    assert!(load_resonance_state(&[0u8; 24]).is_none());
    let mut ok = b"PLS1".to_vec();
    ok.extend_from_slice(&[0u8; 20]);
    let st = load_resonance_state(&ok).expect("empty state");
    assert_eq!(st.instance_id, 0);
    assert!(st.outgoing.is_empty() && st.incoming.is_empty() && st.field.is_empty());
}

#[test]
fn received_pulse_without_trailer_is_dropped() {
    let mut state = ResonanceState { instance_id: 1, outgoing: Vec::new(), incoming: Vec::new(), field: Vec::new() };
    state.incoming.push(ReceivedPulse { pulse: pulse(5, 6, 7, vec![act(1.0, 1.0, 1.0, 1.0)], 0, 1.0), local_matches: 2, integrated: false });
    let bytes = state.to_bytes();
    let cut = &bytes[..bytes.len() - 1];
    let loaded = load_resonance_state(cut).expect("state file");
    assert!(loaded.incoming.is_empty());
}

#[test]
fn instance_ids_differ_by_path() {
    assert_eq!(path_hash("/tmp/a"), path_hash("/tmp/a"));
    assert_ne!(path_hash("/tmp/a"), path_hash("/tmp/b"));
}

#[test]
fn wire_try_decode_refuses_cut_pulse_head() {
    let mut d: Vec<u8> = b"PXC1".to_vec();
    d.extend_from_slice(&1u32.to_le_bytes());
    d.extend_from_slice(&[0u8; 30]);
    assert!(try_decode_pulses(&d).is_none());
    d.push(0);
    assert_eq!(try_decode_pulses(&d).map(|v| v.len()), Some(1));
    assert_eq!(try_decode_pulses(b"junk").map(|v| v.len()), Some(0));
}

#[test]
fn expire_pulses_drops_two_day_old_pulses() {
    let day = 86_400_000u64;
    let now = 10 * day;
    let mut st = ResonanceState {
        instance_id: 7,
        outgoing: vec![
            pulse(1, now - 3 * day, 1, vec![], 0, 0.5),
            pulse(1, now - day, 2, vec![], 0, 0.5),
            pulse(1, now - 2 * day, 3, vec![], 0, 0.5),
        ],
        incoming: vec![
            ReceivedPulse { pulse: pulse(2, now, 4, vec![], 0, 0.5), local_matches: 1, integrated: false },
            ReceivedPulse { pulse: pulse(2, now - 5 * day, 5, vec![], 0, 0.5), local_matches: 0, integrated: true },
            ReceivedPulse { pulse: pulse(2, now - 2 * day + 1, 6, vec![], 0, 0.5), local_matches: 0, integrated: true },
        ],
        field: vec![],
    };
    st.expire_pulses(now);
    assert_eq!(st.instance_id, 7);
    // Exactly two days old is expired.
    let out: Vec<u64> = st.outgoing.iter().map(|p| p.query_hash).collect();
    assert_eq!(out, vec![2]);
    let inc: Vec<u64> = st.incoming.iter().map(|r| r.pulse.query_hash).collect();
    assert_eq!(inc, vec![4, 6]);
}
