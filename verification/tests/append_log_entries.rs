use microscope_memory::append_log::{
    append_format, append_log_bytes, encode_append_entry, read_append_log, AppendFormat,
};

fn f32_bits(v: f32) -> u32 {
    v.to_bits()
}

#[test]
fn append_log_write_then_read_back_v3() {
    let pid = [9u8; 16];
    let mut log: Vec<u8> = Vec::new();
    let first = append_log_bytes(&log, 2, 7, 3, &pid, f32_bits(0.5), f32_bits(-1.0), f32_bits(2.25), "hello".as_bytes());
    assert_eq!(&first[0..4], b"APv3");
    log.extend_from_slice(&first);
    let second = append_log_bytes(&log, 1, 5, 4, &pid, 0, 0, 0, "világ".as_bytes());
    assert_ne!(&second[0..4], b"APv3");
    log.extend_from_slice(&second);

    let entries = read_append_log(&log);
    assert_eq!(entries.len(), 2);
    assert_eq!(entries[0].text, "hello");
    assert_eq!(entries[0].layer_id, 2);
    assert_eq!(entries[0].importance, 7);
    assert_eq!(entries[0].depth, 3);
    assert_eq!(entries[0].project_id, Some(pid));
    assert_eq!(f32::from_bits(entries[0].x_bits), 0.5);
    assert_eq!(f32::from_bits(entries[0].y_bits), -1.0);
    assert_eq!(f32::from_bits(entries[0].z_bits), 2.25);
    assert_eq!(entries[1].text, "világ");
    assert_eq!(entries[1].importance, 5);
}

#[test]
fn append_log_v2_keeps_format_and_has_no_project() {
    let mut log: Vec<u8> = b"APv2".to_vec();
    assert_eq!(append_format(&log), AppendFormat::V2);
    let add = append_log_bytes(&log, 3, 1, 2, &[1u8; 16], 1, 2, 3, b"abc");
    assert_eq!(add.len(), 19 + 3);
    log.extend_from_slice(&add);
    let entries = read_append_log(&log);
    assert_eq!(entries.len(), 1);
    assert_eq!(entries[0].project_id, None);
    assert_eq!(entries[0].depth, 2);
    assert_eq!((entries[0].x_bits, entries[0].y_bits, entries[0].z_bits), (1, 2, 3));
}

#[test]
fn append_log_legacy_entries_have_depth_four() {
    // [u32 len][layer][importance][x][y][z][text]
    let mut log: Vec<u8> = Vec::new();
    log.extend_from_slice(&2u32.to_le_bytes());
    log.push(6);
    log.push(8);
    log.extend_from_slice(&1.0f32.to_le_bytes());
    log.extend_from_slice(&2.0f32.to_le_bytes());
    log.extend_from_slice(&3.0f32.to_le_bytes());
    log.extend_from_slice(b"hi");
    let entries = read_append_log(&log);
    assert_eq!(entries.len(), 1);
    assert_eq!(entries[0].text, "hi");
    assert_eq!(entries[0].layer_id, 6);
    assert_eq!(entries[0].importance, 8);
    assert_eq!(entries[0].depth, 4);
    assert_eq!(entries[0].project_id, None);
    assert_eq!(f32::from_bits(entries[0].z_bits), 3.0);
    // a legacy log gets APv3 entries appended
    assert_eq!(append_format(&log), AppendFormat::V3);
}

#[test]
fn append_log_stops_at_truncated_entry_and_handles_empty() {
    assert!(read_append_log(&[]).is_empty());
    assert!(read_append_log(b"APv3").is_empty());
    let mut log: Vec<u8> = b"APv3".to_vec();
    log.extend_from_slice(&encode_append_entry(1, 1, 1, &[0u8; 16], 0, 0, 0, b"complete", AppendFormat::V3));
    let partial = encode_append_entry(1, 1, 1, &[0u8; 16], 0, 0, 0, b"cut short", AppendFormat::V3);
    log.extend_from_slice(&partial[..partial.len() - 2]);
    let entries = read_append_log(&log);
    assert_eq!(entries.len(), 1);
    assert_eq!(entries[0].text, "complete");
}

#[test]
fn append_log_invalid_utf8_is_replaced() {
    let mut log: Vec<u8> = b"APv3".to_vec();
    log.extend_from_slice(&encode_append_entry(0, 0, 0, &[0u8; 16], 0, 0, 0, &[0x66, 0xff, 0x67], AppendFormat::V3));
    let entries = read_append_log(&log);
    assert_eq!(entries[0].text, "f\u{fffd}g");
}
