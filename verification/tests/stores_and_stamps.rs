use microscope_memory::mcp::{
    ebbinghaus_decay, frame_message, is_leap_yr, parse_header_line, try_ebbinghaus_decay,
};
use microscope_memory::neuroplasticity::{
    pathway_hash, NeuralPathway, Neuroplasticity, SynapticConnection, DEFAULT_THRESHOLD_BITS,
    PLASTICITY_WINDOW_MS,
};
use microscope_memory::reader::{
    chrono_stamp, is_leap, layer_color, layer_entry_text, layer_file_content, parse_imp_marker,
};

fn synapse(from: u32, to: u32, weight: f32, frequency: u32) -> SynapticConnection {
    SynapticConnection {
        from_block: from,
        to_block: to,
        weight_bits: weight.to_bits(),
        frequency,
        last_activated_ms: 1_700_000_000_000 + from as u64,
        plasticity_bits: 0.8f32.to_bits(),
    }
}

fn pathway(nodes: Vec<u32>, domain: &str, usage: u32) -> NeuralPathway {
    NeuralPathway {
        id: pathway_hash(&nodes),
        nodes,
        strength_bits: 0.5f32.to_bits(),
        efficiency_bits: 0.4f32.to_bits(),
        usage_count: usage,
        specialized_for: domain.to_string(),
    }
}

#[test]
fn neuroplasticity_save_load_roundtrip() {
    let mut np = Neuroplasticity::new();
    np.synapses.push(synapse(1, 2, 0.6, 1));
    np.synapses.push(synapse(2, 3, 0.3, 4));
    np.pathways.push(pathway(vec![1, 2, 3], "rust", 2));
    np.pathways.push(pathway(vec![7, 8], "", 1));
    let bytes = np.to_bytes();
    assert_eq!(&bytes[0..5], b"NPLS\x01");
    let back = Neuroplasticity::from_bytes(&bytes);
    assert_eq!(back.synapses, np.synapses);
    assert_eq!(back.pathways.len(), 2);
    assert_eq!(back.pathways[0].nodes, vec![1, 2, 3]);
    assert_eq!(back.pathways[0].specialized_for, "rust");
    assert_eq!(back.pathways[0].usage_count, 2);
    assert_eq!(f32::from_bits(back.pathways[0].strength_bits), 0.5);
    assert_eq!(back.pathways[1].nodes, vec![7, 8]);
    assert_eq!(back.reorganization_threshold_bits, DEFAULT_THRESHOLD_BITS);
    assert_eq!(f32::from_bits(DEFAULT_THRESHOLD_BITS), 0.5);
    assert_eq!(back.plasticity_window_ms, PLASTICITY_WINDOW_MS);
}

#[test]
fn neuroplasticity_file_layout() {
    let mut np = Neuroplasticity::new();
    np.synapses.push(synapse(5, 6, 1.0, 9));
    np.pathways.push(pathway(vec![10, 11], "ab", 3));
    let bytes = np.to_bytes();
    // header 5 + count 4 + synapse 28 + count 4 + pathway (23 + 2 + 8)
    assert_eq!(bytes.len(), 5 + 4 + 28 + 4 + 33);
    assert_eq!(&bytes[5..9], &1u32.to_le_bytes());
    assert_eq!(&bytes[9..13], &5u32.to_le_bytes());
    assert_eq!(&bytes[13..17], &6u32.to_le_bytes());
    assert_eq!(bytes[37 + 4 + 20], 2);
    assert_eq!(&bytes[37 + 4 + 21..37 + 4 + 23], b"ab");
}

#[test]
fn neuroplasticity_later_duplicate_replaces() {
    let mut data = b"NPLS\x01".to_vec();
    data.extend_from_slice(&2u32.to_le_bytes());
    for (w, f) in [(0.1f32, 1u32), (0.9f32, 7u32)] {
        data.extend_from_slice(&4u32.to_le_bytes());
        data.extend_from_slice(&5u32.to_le_bytes());
        data.extend_from_slice(&w.to_le_bytes());
        data.extend_from_slice(&f.to_le_bytes());
        data.extend_from_slice(&0u64.to_le_bytes());
        data.extend_from_slice(&0.8f32.to_le_bytes());
    }
    data.extend_from_slice(&0u32.to_le_bytes());
    data.extend_from_slice(&[0u8; 8]);
    let np = Neuroplasticity::from_bytes(&data);
    assert_eq!(np.synapses.len(), 1);
    assert_eq!(np.synapses[0].frequency, 7);
    assert_eq!(f32::from_bits(np.synapses[0].weight_bits), 0.9);
}

#[test]
fn neuroplasticity_last_synapse_needs_lookahead() {
    // A store with a synapse and no pathway: the reader wants 36 bytes at the
    // start of a synapse, and only 32 are there, so it reads none back.
    let mut np = Neuroplasticity::new();
    np.synapses.push(synapse(1, 2, 0.6, 1));
    let back = Neuroplasticity::from_bytes(&np.to_bytes());
    assert_eq!(back.synapses.len(), 0);
}

#[test]
fn neuroplasticity_foreign_bytes_give_empty_store() {
    let np = Neuroplasticity::from_bytes(b"XXXX\x01\x00\x00\x00\x00");
    assert!(np.synapses.is_empty());
    assert!(np.pathways.is_empty());
    let np = Neuroplasticity::from_bytes(b"NPL");
    assert!(np.synapses.is_empty());
}

#[test]
fn pathway_hash_uses_first_ten_nodes() {
    let a: Vec<u32> = (0..10).collect();
    let mut b = a.clone();
    b.push(99);
    assert_eq!(pathway_hash(&a), pathway_hash(&b));
    assert_ne!(pathway_hash(&a), pathway_hash(&a[..9]));
    assert_eq!(pathway_hash(&[]), 0xcbf29ce484222325);
}

#[test]
fn parse_imp_marker_extracts_importance_and_strips_marker() {
    assert_eq!(
        parse_imp_marker("(imp=7) döntés rögzítve"),
        ("döntés rögzítve", 7)
    );
    assert_eq!(
        parse_imp_marker("(imp=8) [2026-08-02 10:00] identitás"),
        ("[2026-08-02 10:00] identitás", 8)
    );
    assert_eq!(
        parse_imp_marker("régi bejegyzés marker nélkül"),
        ("régi bejegyzés marker nélkül", 5)
    );
    assert_eq!(
        parse_imp_marker("(imp=12) túl magas érték"),
        ("túl magas érték", 12)
    );
}

#[test]
fn parse_imp_marker_rejects_out_of_range_and_unclosed() {
    assert_eq!(parse_imp_marker("(imp=300) x"), ("(imp=300) x", 5));
    assert_eq!(parse_imp_marker("(imp=3 x"), ("(imp=3 x", 5));
    assert_eq!(parse_imp_marker("  (imp=+9)   y"), ("y", 9));
}

#[test]
fn chrono_stamp_renders_utc_minutes() {
    assert_eq!(chrono_stamp(0), "1970-01-01 00:00");
    assert_eq!(chrono_stamp(1_700_000_000), "2023-11-14 22:13");
    assert_eq!(chrono_stamp(951_782_400), "2000-02-29 00:00");
    assert_eq!(chrono_stamp(1_704_067_199), "2023-12-31 23:59");
}

#[test]
fn leap_years() {
    assert!(is_leap(2000));
    assert!(!is_leap(1900));
    assert!(is_leap(2024));
    assert!(!is_leap(2023));
    assert_eq!(is_leap_yr(2000), is_leap(2000));
    assert_eq!(is_leap_yr(2100), false);
}

#[test]
fn layer_colors() {
    assert_eq!(layer_color(0), "white");
    assert_eq!(layer_color(4), "red");
    assert_eq!(layer_color(9), "purple");
    assert_eq!(layer_color(200), "white");
}

#[test]
fn ebbinghaus_labels_by_age() {
    let t0: u64 = 1_704_067_200; // 2024-01-01 00:00
    let e = "[2024-01-01 00:00] hello";
    assert_eq!(ebbinghaus_decay(e, t0 + 600), "░ FRESH");
    assert_eq!(ebbinghaus_decay(e, t0 + 2 * 3600), "░ recent");
    assert_eq!(ebbinghaus_decay(e, t0 + 48 * 3600), "▒ fading");
    assert_eq!(ebbinghaus_decay(e, t0 + 100 * 3600), "▓ old");
    assert_eq!(ebbinghaus_decay(e, t0 + 200 * 3600), "█ forgotten");
    assert_eq!(ebbinghaus_decay(e, t0 - 5), "░ FRESH");
}

#[test]
fn ebbinghaus_forgets_unstamped_entries() {
    assert_eq!(ebbinghaus_decay("(imp=5) [2024-01-01 00:00] x", 0), "█ forgotten");
    assert_eq!(ebbinghaus_decay("[2019-01-01 00:00] x", 0), "█ forgotten");
    assert_eq!(ebbinghaus_decay("[2024-01-01] x", 0), "█ forgotten");
    assert_eq!(ebbinghaus_decay("", 0), "█ forgotten");
}

#[test]
fn ebbinghaus_reads_what_chrono_stamp_writes() {
    let t: u64 = 1_750_000_000;
    let entry = format!("[{}] note", chrono_stamp(t));
    let written = t - t % 60;
    assert_eq!(ebbinghaus_decay(&entry, written + 30 * 3600), "▒ fading");
    assert_eq!(ebbinghaus_decay(&entry, written + 3599), "░ FRESH");
    assert_eq!(ebbinghaus_decay(&entry, written + 3600), "░ recent");
}

#[test]
fn content_length_header() {
    let mut len = None;
    parse_header_line("Content-Length: 42\r\n", &mut len);
    assert_eq!(len, Some(42));
    parse_header_line("content-type: application/json", &mut len);
    assert_eq!(len, Some(42));
    parse_header_line("CONTENT-LENGTH:7", &mut len);
    assert_eq!(len, Some(7));
    parse_header_line("Content-Length: abc", &mut len);
    assert_eq!(len, Some(7));
}

#[test]
fn framing_of_responses() {
    assert_eq!(frame_message("{}", true), "Content-Length: 2\r\n\r\n{}");
    assert_eq!(frame_message("é", true), "Content-Length: 2\r\n\r\né");
    assert_eq!(frame_message("{}", false), "{}\n");
}

#[test]
fn layer_entry_marks_importance_and_stamps_sessions() {
    assert_eq!(layer_entry_text("long_term", 7, 0, "fact"), "(imp=7) fact");
    assert_eq!(
        layer_entry_text("session", 3, 86400 + 3661, "note"),
        "(imp=3) [1970-01-02 01:01] note"
    );
}

#[test]
fn layer_file_keeps_nonblank_entries_and_retention() {
    assert_eq!(layer_file_content("", "(imp=5) a", 0), "(imp=5) a");
    assert_eq!(
        layer_file_content("x\n\n  \n\ny\n\n\n\n", "z", 0),
        "x\n\ny\n\nz"
    );
    assert_eq!(layer_file_content("one\n\ntwo\n\nthree", "four", 2), "three\n\nfour");
    assert_eq!(layer_file_content("one\n\ntwo", "three", 5), "one\n\ntwo\n\nthree");
    // three newlines: the split takes the first pair, the third starts the next piece
    assert_eq!(layer_file_content("a\n\n\nb", "c", 0), "a\n\n\nb\n\nc");
}

#[test]
fn ebbinghaus_try_rejects_stamps_past_64_bits() {
    assert_eq!(try_ebbinghaus_decay("[2024-01-01 00:00] x", 1_704_067_200 + 600), Some("░ FRESH"));
    assert_eq!(try_ebbinghaus_decay("no stamp", 5), Some("█ forgotten"));
    // a day count whose seconds overflow 64 bits
    assert_eq!(try_ebbinghaus_decay("[2024-01-300000000000000 00:00] x", 5), None);
}

#[test]
fn layer_file_reads_back_what_was_stored() {
    let mut content = String::new();
    let entries = ["(imp=5) first", "(imp=3) second\nline", "(imp=9) third"];
    for e in entries.iter() {
        content = layer_file_content(&content, e, 0);
    }
    let back: Vec<&str> = content.split("\n\n").filter(|s| !s.trim().is_empty()).collect();
    assert_eq!(back, entries.to_vec());
    // with a retention of two, the newest two remain, newest last
    let kept = layer_file_content(&content, "(imp=1) fourth", 2);
    assert_eq!(kept, "(imp=9) third\n\n(imp=1) fourth");
}
