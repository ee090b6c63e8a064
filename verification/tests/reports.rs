use microscope_memory::pipeline::{timeline_status, TimelineStatus};
use microscope_memory::meta_supervision::select_correction_strategy;
use microscope_memory::narrative_memory::chrono_str;
use microscope_memory::pipeline::{
    clamp_importance, normalize_store_text, store_memory_pipeline,
    store_memory_pipeline_with_status,
};
use microscope_memory::query::{take_word, BoolOp};
use microscope_memory::reconsolidation::format_reconsolidation;

#[test]
fn reconsolidation_line() {
    assert_eq!(format_reconsolidation(0, 0), "");
    assert_eq!(format_reconsolidation(3, 0), "  RECONSOLIDATED emotion=3 spatial=0");
    assert_eq!(format_reconsolidation(12, 105), "  RECONSOLIDATED emotion=12 spatial=105");
}

#[test]
fn narrative_age_text() {
    assert_eq!(chrono_str(0), "0d 0h 0m ago");
    let ms = ((2 * 86400 + 3 * 3600 + 4 * 60 + 5) * 1000) as u64;
    assert_eq!(chrono_str(ms), "2d 3h 4m ago");
}

#[test]
fn test_pipeline_rejects_empty() {
    assert!(store_memory_pipeline("", "session", 5, "Neutral").is_err());
    assert!(store_memory_pipeline("   ", "session", 5, "Neutral").is_err());
}

#[test]
fn test_pipeline_clamps_importance() {
    let r = store_memory_pipeline("test text", "session", 0, "Neutral").unwrap();
    assert!(r.message.contains("importance: 1"));
    let r2 = store_memory_pipeline("test text 2", "session", 255, "Neutral").unwrap();
    assert!(r2.message.contains("importance: 10"));
}

#[test]
fn pipeline_messages() {
    let r = store_memory_pipeline("  x  ", "long_term", 7, "Joy").unwrap();
    assert!(r.stored && r.emotion_extracted);
    assert_eq!(r.emotion_event, "Joy");
    assert_eq!(r.message, "STORED | layer: long_term | importance: 7 | emotion: Joy");
    let r = store_memory_pipeline_with_status("x", "session", 3, None, "Calm").unwrap();
    assert_eq!(
        r.message,
        "STORED | layer: session | importance: 3 | status: normal | emotion: Calm"
    );
    let r = store_memory_pipeline_with_status("x", "session", 3, Some("resolved"), "Calm").unwrap();
    assert!(r.message.contains("status: resolved"));
    assert_eq!(
        store_memory_pipeline("", "s", 1, "e").err().unwrap(),
        "Cannot store empty text"
    );
    assert_eq!(normalize_store_text("\t hi there \n").unwrap(), "hi there");
    assert!(normalize_store_text(" \n ").is_none());
    assert_eq!(clamp_importance(5), 5);
}

#[test]
fn query_take_word() {
    let (w, rest) = take_word("  layer:long_term depth:3");
    assert_eq!(w, "layer:long_term");
    assert_eq!(rest, " depth:3");
    let (w, rest) = take_word("");
    assert_eq!(w, "");
    assert_eq!(rest, "");
    assert_ne!(BoolOp::And, BoolOp::Or);
}

#[test]
fn meta_supervision_strategy_by_severity() {
    let strategies = vec!["reduce_complexity".to_string(), "increase_attention_focus".to_string(), "x".to_string()];
    assert_eq!(select_correction_strategy(&strategies, "critical"), "reallocate_resources");
    assert_eq!(select_correction_strategy(&strategies, "alert"), "increase_attention_focus");
    assert_eq!(select_correction_strategy(&strategies, "warning"), "reduce_complexity");
    assert_eq!(select_correction_strategy(&strategies, "other"), "adjust_parameters");
    let custom = vec!["first".to_string(), "second".to_string()];
    assert_eq!(select_correction_strategy(&custom, "alert"), "second");
    assert_eq!(select_correction_strategy(&custom[..1], "alert"), "increase_attention_focus");
    assert_eq!(select_correction_strategy(&[], "warning"), "reduce_complexity");
}

#[test]
fn pipeline_timeline_status_mapping() {
    assert_eq!(timeline_status(Some("open")), TimelineStatus::Open);
    assert_eq!(timeline_status(Some("resolved")), TimelineStatus::Resolved);
    assert_eq!(timeline_status(Some("archived")), TimelineStatus::Archived);
    assert_eq!(timeline_status(Some("normal")), TimelineStatus::Normal);
    assert_eq!(timeline_status(Some("OPEN")), TimelineStatus::Normal);
    assert_eq!(timeline_status(None), TimelineStatus::Normal);
}
