//! Meta-cognitive supervision: which correction strategy a degradation of
//! a given severity calls for.
use vstd::prelude::*;
use crate::relevance::strings_view;
use crate::text::str_eq;

verus! {

/// The strategy chosen for a severity: a fixed one for `critical`, the
/// second configured strategy for `alert` and the first for `warning`
/// (each with a fixed fallback when too few are configured), and
/// `adjust_parameters` for any other severity.
pub open spec fn strategy_spec(strategies: Seq<Seq<char>>, severity: Seq<char>) -> Seq<char> {
    if severity == "critical"@ {
        "reallocate_resources"@
    } else if severity == "alert"@ {
        if strategies.len() > 1 {
            strategies[1]
        } else {
            "increase_attention_focus"@
        }
    } else if severity == "warning"@ {
        if strategies.len() > 0 {
            strategies[0]
        } else {
            "reduce_complexity"@
        }
    } else {
        "adjust_parameters"@
    }
}

/// Select the correction strategy for a severity.
pub fn select_correction_strategy(strategies: &[String], severity: &str) -> (r: String)
    ensures
        r@ == strategy_spec(strings_view(strategies@), severity@),
{
    if str_eq(severity, "critical") {
        "reallocate_resources".to_string()
    } else if str_eq(severity, "alert") {
        if strategies.len() > 1 {
            strategies[1].clone()
        } else {
            "increase_attention_focus".to_string()
        }
    } else if str_eq(severity, "warning") {
        if strategies.len() > 0 {
            strategies[0].clone()
        } else {
            "reduce_complexity".to_string()
        }
    } else {
        "adjust_parameters".to_string()
    }
}

} // verus!
