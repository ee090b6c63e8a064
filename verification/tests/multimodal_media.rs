use microscope_memory::multimodal::{
    compute_phash, decode_audio_meta, decode_image_meta, decode_structured_meta, encode_audio_meta,
    encode_image_meta, encode_structured_meta, hamming_distance, read_u16, read_u32, AudioMeta,
    FieldValue, ImageMeta, Modality, ModalityIndex, StructuredMeta, IMAGE_PAYLOAD_BYTES,
};

fn image(phash: [u8; 8], content_hash: u32) -> Modality {
    Modality::Image(ImageMeta { width: 100, height: 100, phash, color_histogram: [0; 12], content_hash })
}

#[test]
fn test_phash_deterministic() {
    let pixels = vec![128u8; 64 * 64];
    let h1 = compute_phash(&pixels, 64, 64);
    let h2 = compute_phash(&pixels, 64, 64);
    assert_eq!(h1, h2);
}

#[test]
fn test_phash_different_images() {
    // Ascending gradient — many left<right transitions
    let mut pixels1 = vec![0u8; 64 * 64];
    for (i, p) in pixels1.iter_mut().enumerate() {
        *p = ((i % 64) * 4) as u8; // 0..252 across each row
    }
    // Descending gradient — many left>right transitions
    let mut pixels2 = vec![0u8; 64 * 64];
    for (i, p) in pixels2.iter_mut().enumerate() {
        *p = (255 - (i % 64) * 4) as u8;
    }
    let h1 = compute_phash(&pixels1, 64, 64);
    let h2 = compute_phash(&pixels2, 64, 64);
    assert_ne!(h1, h2);
}

#[test]
fn test_hamming_distance() {
    let a = [0xFF, 0x00, 0xFF, 0x00, 0xFF, 0x00, 0xFF, 0x00];
    let b = [0xFF, 0x00, 0xFF, 0x00, 0xFF, 0x00, 0xFF, 0x00];
    assert_eq!(hamming_distance(&a, &b), 0);

    let c = [0x00, 0xFF, 0x00, 0xFF, 0x00, 0xFF, 0x00, 0xFF];
    assert_eq!(hamming_distance(&a, &c), 64); // all bits differ
}

#[test]
fn test_image_meta_roundtrip() {
    let meta = ImageMeta {
        width: 1920,
        height: 1080,
        phash: [1, 2, 3, 4, 5, 6, 7, 8],
        color_histogram: [10, 20, 30, 40, 50, 60, 70, 80, 90, 100, 110, 120],
        content_hash: 0xDEADBEEF,
    };
    let mut buf = Vec::new();
    encode_image_meta(&meta, &mut buf);
    let decoded = decode_image_meta(&buf);
    assert_eq!(meta, decoded);
}

// ─── Additional checks ─────────────────────────────

#[test]
fn multimodal_phash_bits() {
    // 16x16: left half bright, right half dark -> the column straddling the
    // edge is the only left>right transition in each row (column 3 of 8).
    let mut px = vec![0u8; 16 * 16];
    for y in 0..16 {
        for x in 0..8 {
            px[y * 16 + x] = 200;
        }
    }
    let h = compute_phash(&px, 16, 16);
    assert_eq!(h, [0b0000_1000; 8]);
    // Too small or too few pixels: all zero.
    assert_eq!(compute_phash(&px, 1, 16), [0; 8]);
    assert_eq!(compute_phash(&px[..10], 16, 16), [0; 8]);
}

#[test]
fn multimodal_hamming_uneven_lengths() {
    assert_eq!(hamming_distance(&[0b1011, 0xFF], &[0b0001]), 2);
    assert_eq!(hamming_distance(&[], &[1, 2, 3]), 0);
}

#[test]
fn multimodal_image_record_layout() {
    let meta = ImageMeta {
        width: 0x0102,
        height: 3,
        phash: [9; 8],
        color_histogram: [7; 12],
        content_hash: 0x0A0B0C0D,
    };
    let mut buf = vec![0xEE];
    encode_image_meta(&meta, &mut buf);
    assert_eq!(buf.len(), 1 + IMAGE_PAYLOAD_BYTES);
    assert_eq!(&buf[1..5], &[2, 1, 3, 0]);
    assert_eq!(&buf[25..33], &[0x0D, 0x0C, 0x0B, 0x0A, 0, 0, 0, 0]);
    assert_eq!(read_u16(&buf, 1), 0x0102);
    assert_eq!(read_u32(&buf, 25), 0x0A0B0C0D);
    assert_eq!(decode_image_meta(&buf[1..]), meta);
}

#[test]
fn multimodal_search_and_stats() {
    let mut index = ModalityIndex::new();
    index.register(0, image([0xFF; 8], 1));
    index.register(1, image([0xFF, 0xFF, 0xFF, 0xFF, 0xFF, 0xFF, 0xFF, 0xFE], 2));
    index.register(2, image([0x00; 8], 3));
    index.register(5, image([0xFF, 0xFF, 0xFF, 0xFF, 0xFF, 0xFF, 0xFF, 0xFC], 4));
    index.register(7, Modality::Text);
    index.register(8, Modality::Structured(StructuredMeta { fields: vec![] }));
    let all = index.search_image_similar(&[0xFF; 8], 5);
    assert_eq!(all, vec![(0, 0), (1, 1), (5, 2)]);
    let s = index.stats();
    assert_eq!(s.total_entries, 6);
    assert_eq!(s.text_count, 1);
    assert_eq!(s.image_count, 4);
    assert_eq!(s.audio_count, 0);
    assert_eq!(s.structured_count, 1);
    // registering a block again replaces its entry
    index.register(2, Modality::Text);
    assert_eq!(index.stats().total_entries, 6);
    assert_eq!(index.get(2), Some(&Modality::Text));
    assert_eq!(index.get(3), None);
}

#[test]
fn test_audio_meta_roundtrip() {
    let meta = AudioMeta {
        duration_ms: 180000,
        sample_rate: 44100,
        spectral_fingerprint: [1, 2, 3, 4, 5, 6, 7, 8, 9, 10, 11, 12, 13, 14, 15, 16],
        peak_freq_bits: 440.0f32.to_bits(),
        bpm_estimate_bits: 120.5f32.to_bits(),
    };
    let mut buf = Vec::new();
    encode_audio_meta(&meta, &mut buf);
    assert_eq!(buf.len(), 32);
    let decoded = decode_audio_meta(&buf);
    assert_eq!(meta, decoded);
}

#[test]
fn test_structured_meta_roundtrip() {
    let meta = StructuredMeta {
        fields: vec![
            ("name".to_string(), FieldValue::Str("test".to_string())),
            ("count".to_string(), FieldValue::Int(42)),
            ("ratio".to_string(), FieldValue::Float(3.125f64.to_bits())),
            ("active".to_string(), FieldValue::Bool(true)),
        ],
    };
    let encoded = encode_structured_meta(&meta);
    let decoded = decode_structured_meta(&encoded).unwrap();
    assert_eq!(meta, decoded);
}

#[test]
fn structured_meta_edge_cases() {
    assert_eq!(decode_structured_meta(&[]), None);
    assert_eq!(decode_structured_meta(&[0]), Some(StructuredMeta { fields: vec![] }));
    // negative integers keep their sign; an unknown type is skipped
    let meta = StructuredMeta { fields: vec![("n".to_string(), FieldValue::Int(-7))] };
    let mut bytes = encode_structured_meta(&meta);
    bytes[0] = 2;
    bytes.extend_from_slice(&[1, b'x', 9, 0]);
    let decoded = decode_structured_meta(&bytes).unwrap();
    assert_eq!(decoded, meta);
}

#[test]
fn test_search_image_similar() {
    let mut index = ModalityIndex::new();
    index.register(0, image([0xFF, 0xFF, 0xFF, 0xFF, 0xFF, 0xFF, 0xFF, 0xFF], 1));
    index.register(1, image([0xFF, 0xFF, 0xFF, 0xFF, 0xFF, 0xFF, 0xFF, 0xFE], 2));
    index.register(2, image([0x00, 0x00, 0x00, 0x00, 0x00, 0x00, 0x00, 0x00], 3));

    let target = [0xFF, 0xFF, 0xFF, 0xFF, 0xFF, 0xFF, 0xFF, 0xFF];
    let results = index.search_image_similar(&target, 5);
    assert_eq!(results.len(), 2); // blocks 0 and 1
    assert_eq!(results[0].1, 0); // exact match first
    assert_eq!(results[1].1, 1); // 1 bit diff second
}

#[test]
fn test_search_structured_by_field() {
    let mut index = ModalityIndex::new();
    index.register(
        0,
        Modality::Structured(StructuredMeta {
            fields: vec![("type".to_string(), FieldValue::Str("report".to_string()))],
        }),
    );
    index.register(
        1,
        Modality::Structured(StructuredMeta {
            fields: vec![("type".to_string(), FieldValue::Str("note".to_string()))],
        }),
    );

    let results = index.search_structured("type", &FieldValue::Str("report".to_string()));
    assert_eq!(results.len(), 1);
    assert_eq!(results[0], 0);
}

#[test]
fn search_structured_compares_floats_as_floats() {
    let mut index = ModalityIndex::new();
    index.register(4, Modality::Structured(StructuredMeta { fields: vec![("z".to_string(), FieldValue::Float(0.0f64.to_bits()))] }));
    index.register(5, Modality::Structured(StructuredMeta { fields: vec![("z".to_string(), FieldValue::Float(f64::NAN.to_bits()))] }));
    assert_eq!(index.search_structured("z", &FieldValue::Float((-0.0f64).to_bits())), vec![4]);
    assert_eq!(index.search_structured("z", &FieldValue::Float(f64::NAN.to_bits())), Vec::<u32>::new());
}

#[test]
fn test_modality_index_save_load() {
    let mut index = ModalityIndex::new();
    index.register(0, Modality::Image(ImageMeta { width: 640, height: 480, phash: [1, 2, 3, 4, 5, 6, 7, 8], color_histogram: [0; 12], content_hash: 99 }));
    index.register(1, Modality::Structured(StructuredMeta { fields: vec![("key".to_string(), FieldValue::Int(42))] }));
    index.register(2, Modality::Audio(AudioMeta { duration_ms: 5, sample_rate: 8000, spectral_fingerprint: [3; 16], peak_freq_bits: 1, bpm_estimate_bits: 2 }));
    index.register(3, Modality::Text);
    let bytes = index.to_bytes();
    assert_eq!(&bytes[0..4], b"MOD1");
    let loaded = ModalityIndex::from_bytes(&bytes);
    assert_eq!(loaded.entries.len(), 4);
    assert_eq!(loaded.entries, index.entries);
    assert!(matches!(loaded.get(0), Some(Modality::Image(m)) if m.width == 640));
    assert!(ModalityIndex::from_bytes(b"NOPE0000").entries.is_empty());
}
