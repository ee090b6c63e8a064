//! Microscope Memory: the verified core of a binary cognitive memory engine.
//!
//! The modules hold the binary formats, integrity structures and decision
//! rules of the engine; each public function states its behaviour as a
//! contract over mathematical models.
use vstd::prelude::*;

pub mod append_log;
pub mod codec;
pub mod keyed;
pub mod mcp;
pub mod mental_stimulation;
pub mod meta_supervision;
pub mod merkle;
pub mod mirror;
pub mod morning;
pub mod morphogenesis;
pub mod multimodal;
pub mod narrative;
pub mod narrative_memory;
pub mod neuroplasticity;
pub mod open_loops;
pub mod pattern_recognition;
pub mod pipeline;
pub mod planning;
pub mod predictive_cache;
pub mod prove;
pub mod query;
pub mod reader;
pub mod reconsolidation;
pub mod relevance;
pub mod resonance;
pub mod salience;
pub mod text;

verus! {
} // verus!
