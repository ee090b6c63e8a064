//! Reconsolidation: report line for the blocks rewritten by a recall.
use vstd::prelude::*;
use crate::text::{decimal, push_decimal, push_str};

verus! {

/// The CLI line: empty when nothing was reconsolidated, else the two counts.
pub open spec fn reconsolidation_line(emo: u32, spatial: u32) -> Seq<char> {
    if emo == 0 && spatial == 0 {
        Seq::empty()
    } else {
        "  RECONSOLIDATED emotion="@ + decimal(emo as nat) + " spatial="@ + decimal(spatial as nat)
    }
}

/// Format for CLI output (no colours; the caller colours it).
pub fn format_reconsolidation(emo: u32, spatial: u32) -> (r: String)
    ensures
        r@ == reconsolidation_line(emo, spatial),
{
    let mut s = String::new();
    if emo == 0 && spatial == 0 {
        return s;
    }
    push_str(&mut s, "  RECONSOLIDATED emotion=");
    push_decimal(&mut s, emo as u64);
    push_str(&mut s, " spatial=");
    push_decimal(&mut s, spatial as u64);
    s
}

} // verus!
