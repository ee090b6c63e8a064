//! Canonical memory store pipeline: the checks every store entry point
//! shares and the result it reports.
//!
//! Steps: normalise the input (trim, refuse empty text), clamp the importance
//! to 1..=10, extract the emotion, persist, report. Emotion extraction and
//! persistence happen between `normalize_store_text` and the report.
use vstd::prelude::*;
use crate::text::{decimal, push_decimal, push_str, str_eq, trim, trim_bounds};

verus! {

/// Canonical store pipeline result.
#[derive(Debug, Clone)]
pub struct StoreResult {
    pub stored: bool,
    pub emotion_extracted: bool,
    pub emotion_event: String,
    pub message: String,
}

/// Importance clamped to 1..=10.
pub open spec fn clamp_importance_spec(importance: u8) -> u8 {
    if importance < 1 {
        1
    } else if importance > 10 {
        10
    } else {
        importance
    }
}

/// Importance clamped to 1..=10.
pub fn clamp_importance(importance: u8) -> (r: u8)
    ensures
        r == clamp_importance_spec(importance),
{
    if importance < 1 {
        1
    } else if importance > 10 {
        10
    } else {
        importance
    }
}

/// The text that is stored: the input without surrounding whitespace, or
/// `None` when nothing is left.
pub fn normalize_store_text(text: &str) -> (r: Option<String>)
    ensures
        r is None <==> trim(text@).len() == 0,
        r matches Some(s) ==> s@ == trim(text@),
{
    let (a, b) = trim_bounds(text);
    if a == b {
        return None;
    }
    Some(text.substring_char(a, b).to_owned())
}

/// The error for empty input.
pub open spec fn empty_text_error() -> Seq<char> {
    "Cannot store empty text"@
}

/// The report line of a store.
pub open spec fn store_message(layer: Seq<char>, importance: u8, status: Option<Seq<char>>, event: Seq<char>) -> Seq<char> {
    match status {
        None => "STORED | layer: "@ + layer + " | importance: "@ + decimal(
            clamp_importance_spec(importance) as nat,
        ) + " | emotion: "@ + event,
        Some(st) => "STORED | layer: "@ + layer + " | importance: "@ + decimal(
            clamp_importance_spec(importance) as nat,
        ) + " | status: "@ + st + " | emotion: "@ + event,
    }
}

fn report(layer: &str, importance: u8, status: Option<&str>, event: &str) -> (r: StoreResult)
    ensures
        r.stored,
        r.emotion_extracted,
        r.emotion_event@ == event@,
        r.message@ == store_message(
            layer@,
            importance,
            match status {
                None => None,
                Some(s) => Some(s@),
            },
            event@,
        ),
{
    let imp = clamp_importance(importance);
    let mut message = String::new();
    push_str(&mut message, "STORED | layer: ");
    push_str(&mut message, layer);
    push_str(&mut message, " | importance: ");
    push_decimal(&mut message, imp as u64);
    match status {
        Some(st) => {
            push_str(&mut message, " | status: ");
            push_str(&mut message, st);
        },
        None => {},
    }
    push_str(&mut message, " | emotion: ");
    push_str(&mut message, event);
    StoreResult {
        stored: true,
        emotion_extracted: true,
        emotion_event: event.to_owned(),
        message,
    }
}

/// The store pipeline's checks and report: refuses text that is empty after
/// trimming; otherwise reports the store of the trimmed text in `layer` with
/// the clamped importance and the extracted emotion event `emotion_event`.
pub fn store_memory_pipeline(text: &str, layer: &str, importance: u8, emotion_event: &str) -> (r:
    Result<StoreResult, String>)
    ensures
        r is Err <==> trim(text@).len() == 0,
        r matches Err(e) ==> e@ == empty_text_error(),
        r matches Ok(res) ==> res.stored && res.emotion_extracted && res.emotion_event@
            == emotion_event@ && res.message@ == store_message(layer@, importance, None, emotion_event@),
{
    if normalize_store_text(text).is_none() {
        return Err("Cannot store empty text".to_owned());
    }
    Ok(report(layer, importance, None, emotion_event))
}

/// As `store_memory_pipeline`, for entries with a status (open loops,
/// resolved, archived); the report names the status, `normal` when none.
pub fn store_memory_pipeline_with_status(
    text: &str,
    layer: &str,
    importance: u8,
    status: Option<&str>,
    emotion_event: &str,
) -> (r: Result<StoreResult, String>)
    ensures
        r is Err <==> trim(text@).len() == 0,
        r matches Err(e) ==> e@ == empty_text_error(),
        r matches Ok(res) ==> res.stored && res.emotion_extracted && res.emotion_event@
            == emotion_event@ && res.message@ == store_message(
            layer@,
            importance,
            Some(
                match status {
                    None => "normal"@,
                    Some(s) => s@,
                },
            ),
            emotion_event@,
        ),
{
    if normalize_store_text(text).is_none() {
        return Err("Cannot store empty text".to_owned());
    }
    let st: &str = match status {
        Some(s) => s,
        None => "normal",
    };
    Ok(report(layer, importance, Some(st), emotion_event))
}


/// The status a stored memory is logged with on the timeline.
#[derive(Clone, Copy, Debug, PartialEq, Eq, Structural)]
pub enum TimelineStatus {
    Normal,
    Open,
    Resolved,
    Archived,
}

/// The timeline status named by a store status: open, resolved and archived
/// name theirs; any other status, or none, is normal.
pub open spec fn timeline_status_spec(status: Option<Seq<char>>) -> TimelineStatus {
    match status {
        Some(s) => if s == "open"@ {
            TimelineStatus::Open
        } else if s == "resolved"@ {
            TimelineStatus::Resolved
        } else if s == "archived"@ {
            TimelineStatus::Archived
        } else {
            TimelineStatus::Normal
        },
        None => TimelineStatus::Normal,
    }
}

/// The timeline status of a memory stored with `status`.
pub fn timeline_status(status: Option<&str>) -> (r: TimelineStatus)
    ensures
        r == timeline_status_spec(
            match status {
                Some(s) => Some(s@),
                None => None,
            },
        ),
{
    proof {
        reveal_strlit("open");
        reveal_strlit("resolved");
        reveal_strlit("archived");
    }
    match status {
        None => TimelineStatus::Normal,
        Some(s) => {
            if str_eq(s, "open") {
                TimelineStatus::Open
            } else if str_eq(s, "resolved") {
                TimelineStatus::Resolved
            } else if str_eq(s, "archived") {
                TimelineStatus::Archived
            } else {
                TimelineStatus::Normal
            }
        },
    }
}
} // verus!
