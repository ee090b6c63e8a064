//! Morning brief: time windows, greeting and spaced-repetition picks.
use vstd::prelude::*;
use crate::text::{preview, preview_spec};

verus! {

pub const DAY_MS: u64 = 86_400_000;

pub const WEEK_MS: u64 = 604_800_000;

pub const MONTH_MS: u64 = 2_592_000_000;

pub const YEAR_MS: u64 = 31_536_000_000;

/// Tolerance for finding memories near a time point (+/- 12 hours).
pub const TIME_TOLERANCE_MS: u64 = 43_200_000;

#[derive(Clone, Debug)]
pub struct SpacedItem {
    pub interval_label: String,
    pub text_preview: String,
    pub block_idx: usize,
}

/// The item shown for a spaced-repetition pick: the interval's label and the
/// first 100 characters of the block's text without newlines.
pub fn spaced_item(interval: usize, text: &str, block_idx: usize) -> (r: SpacedItem)
    requires
        interval < 4,
    ensures
        r.interval_label@ == interval_label(interval as int),
        r.text_preview@ == preview_spec(text@, 100),
        r.block_idx == block_idx,
{
    let ivs = intervals();
    assert(ivs@[interval as int].0 == interval_ms(interval as int));
    SpacedItem {
        interval_label: ivs[interval].1.to_owned(),
        text_preview: preview(text, 100),
        block_idx,
    }
}

/// Length of spaced-repetition interval `k` (1 day, 1 week, 1 month, 1 year).
pub open spec fn interval_ms(k: int) -> u64 {
    if k == 0 {
        DAY_MS
    } else if k == 1 {
        WEEK_MS
    } else if k == 2 {
        MONTH_MS
    } else {
        YEAR_MS
    }
}

/// Label of spaced-repetition interval `k`.
pub open spec fn interval_label(k: int) -> Seq<char> {
    if k == 0 {
        "1 day ago"@
    } else if k == 1 {
        "1 week ago"@
    } else if k == 2 {
        "1 month ago"@
    } else {
        "1 year ago"@
    }
}

/// The spaced-repetition intervals, shortest first, with their labels.
pub fn intervals() -> (r: Vec<(u64, &'static str)>)
    ensures
        r@.len() == 4,
        forall|k: int| 0 <= k < 4 ==> #[trigger] r@[k].0 == interval_ms(k) && r@[k].1@ == interval_label(k),
{
    let mut v: Vec<(u64, &'static str)> = Vec::new();
    v.push((DAY_MS, "1 day ago"));
    v.push((WEEK_MS, "1 week ago"));
    v.push((MONTH_MS, "1 month ago"));
    v.push((YEAR_MS, "1 year ago"));
    v
}

/// Four-hour window of the day (0..6) that a time falls in.
pub fn window_index(now_ms: u64) -> (r: usize)
    ensures
        r == (now_ms / 3_600_000 % 24) / 4,
        r < 6,
{
    ((now_ms / 3_600_000 % 24) / 4) as usize
}

/// Greeting for an hour of the day.
pub fn greeting(hour: u64) -> (r: &'static str)
    ensures
        r@ == if hour <= 5 {
            "Good night"@
        } else if hour <= 11 {
            "Good morning"@
        } else if hour <= 17 {
            "Good afternoon"@
        } else {
            "Good evening"@
        },
{
    if hour <= 5 {
        "Good night"
    } else if hour <= 11 {
        "Good morning"
    } else if hour <= 17 {
        "Good afternoon"
    } else {
        "Good evening"
    }
}

/// A time in milliseconds taken as a signed 64-bit number, as the distance
/// of two times is measured: values from 2^63 up wrap to negative ones.
pub open spec fn signed_ms(a: u64) -> int {
    if a < 0x8000_0000_0000_0000 {
        a as int
    } else {
        a - 0x1_0000_0000_0000_0000
    }
}

/// The signed difference of every activated block's time and the target
/// fits in `i64`; elsewhere measuring the distance would overflow.
pub open spec fn times_fit(acts: Seq<(u32, u64)>, t: u64) -> bool {
    forall|i: int|
        0 <= i < acts.len() && #[trigger] acts[i].0 != 0 && acts[i].1 != 0 ==> -0x8000_0000_0000_0000
            <= signed_ms(acts[i].1) - signed_ms(t) <= 0x7fff_ffff_ffff_ffff
}

/// Distance of an activation time from a target time: the absolute value of
/// their difference as signed numbers.
pub open spec fn time_diff(a: u64, b: u64) -> nat {
    let d = signed_ms(a) - signed_ms(b);
    if d >= 0 {
        d as nat
    } else {
        (-d) as nat
    }
}

fn signed_of(a: u64) -> (r: i128)
    ensures
        r == signed_ms(a),
{
    if a < 0x8000_0000_0000_0000 {
        a as i128
    } else {
        a as i128 - 0x1_0000_0000_0000_0000
    }
}

/// Block `i` was activated within the tolerance of `target`.
pub open spec fn near_target(acts: Seq<(u32, u64)>, i: int, target: u64) -> bool {
    acts[i].0 != 0 && acts[i].1 != 0 && time_diff(acts[i].1, target) < TIME_TOLERANCE_MS
}

/// `best` is the block activated closest to `target` (the first such block
/// on ties) among those activated within the tolerance; `None` when there is none.
pub open spec fn is_closest(acts: Seq<(u32, u64)>, target: u64, best: Option<usize>) -> bool {
    match best {
        None => forall|i: int| 0 <= i < acts.len() ==> !near_target(acts, i, target),
        Some(b) => {
            &&& b < acts.len()
            &&& near_target(acts, b as int, target)
            &&& forall|i: int|
                0 <= i < acts.len() && near_target(acts, i, target) ==> time_diff(acts[i].1, target)
                    >= time_diff(acts[b as int].1, target)
            &&& forall|i: int|
                0 <= i < b && near_target(acts, i, target) ==> time_diff(acts[i].1, target)
                    > time_diff(acts[b as int].1, target)
        },
    }
}

/// The block activated closest to `target` within the tolerance.
pub fn closest_activation(acts: &[(u32, u64)], target: u64) -> (r: Option<usize>)
    requires
        times_fit(acts@, target),
    ensures
        is_closest(acts@, target, r),
{
    let n: usize = acts.len();
    let mut best: Option<usize> = None;
    let mut best_diff: u64 = 0;
    let mut i: usize = 0;
    while i < n
        invariant
            i <= n,
            n == acts@.len(),
            is_closest(acts@.take(i as int), target, best),
            best matches Some(b) ==> best_diff == time_diff(acts@[b as int].1, target),
        decreases n - i,
    {
        let (count, last) = acts[i];
        let ghost pre = acts@.take(i as int);
        let ghost post = acts@.take(i + 1);
        assert forall|j: int| 0 <= j < i implies near_target(post, j, target) == near_target(pre, j, target)
            && #[trigger] post[j] == pre[j] by {}
        if count != 0 && last != 0 {
            assert(acts@[i as int] == (count, last));
            let d: i128 = signed_of(last) - signed_of(target);
            let diff: u64 = if d >= 0 {
                d as u64
            } else {
                (-d) as u64
            };
            assert(diff == time_diff(last, target));
            if diff < TIME_TOLERANCE_MS {
                match best {
                    None => {
                        best = Some(i);
                        best_diff = diff;
                    },
                    Some(_) => {
                        if diff < best_diff {
                            best = Some(i);
                            best_diff = diff;
                        }
                    },
                }
            }
        }
        i = i + 1;
    }
    assert(acts@.take(n as int) =~= acts@);
    best
}

/// Target time of interval `k`: `now` moved back by the interval, stopping at 0.
pub open spec fn interval_target(now_ms: u64, k: int) -> u64 {
    if now_ms >= interval_ms(k) {
        (now_ms - interval_ms(k)) as u64
    } else {
        0
    }
}

/// For each spaced-repetition interval in order, the block activated closest
/// to that long ago (see `is_closest`), when there is one: (interval, block) pairs.
pub fn spaced_picks(acts: &[(u32, u64)], now_ms: u64) -> (r: Vec<(usize, usize)>)
    requires
        forall|k: int| 0 <= k < 4 ==> times_fit(acts@, #[trigger] interval_target(now_ms, k)),
    ensures
        forall|k: int| 0 <= k < r@.len() ==> #[trigger] r@[k].0 < 4,
        forall|a: int, b: int| 0 <= a < b < r@.len() ==> r@[a].0 < r@[b].0,
        forall|k: int|
            0 <= k < r@.len() ==> is_closest(
                acts@,
                interval_target(now_ms, #[trigger] r@[k].0 as int),
                Some(r@[k].1),
            ),
        forall|j: int|
            0 <= j < 4 ==> (is_closest(acts@, interval_target(now_ms, j), None) || exists|k: int|
                0 <= k < r@.len() && #[trigger] r@[k].0 == j),
{
    let ivs = intervals();
    let mut out: Vec<(usize, usize)> = Vec::new();
    let mut j: usize = 0;
    while j < 4
        invariant
            j <= 4,
            ivs@.len() == 4,
            forall|k: int| 0 <= k < 4 ==> times_fit(acts@, #[trigger] interval_target(now_ms, k)),
            forall|k: int| 0 <= k < 4 ==> #[trigger] ivs@[k].0 == interval_ms(k),
            forall|k: int| 0 <= k < out@.len() ==> #[trigger] out@[k].0 < j,
            forall|a: int, b: int| 0 <= a < b < out@.len() ==> out@[a].0 < out@[b].0,
            forall|k: int|
                0 <= k < out@.len() ==> is_closest(
                    acts@,
                    interval_target(now_ms, #[trigger] out@[k].0 as int),
                    Some(out@[k].1),
                ),
            forall|q: int|
                0 <= q < j ==> (is_closest(acts@, interval_target(now_ms, q), None) || exists|k: int|
                    0 <= k < out@.len() && #[trigger] out@[k].0 == q),
        decreases 4 - j,
    {
        let target = now_ms.saturating_sub(ivs[j].0);
        assert(target == interval_target(now_ms, j as int));
        let pick = closest_activation(acts, target);
        if let Some(b) = pick {
            let ghost prev = out@;
            out.push((j, b));
            assert forall|q: int| 0 <= q < j + 1 implies (is_closest(
                acts@,
                interval_target(now_ms, q),
                None,
            ) || exists|k: int| 0 <= k < out@.len() && #[trigger] out@[k].0 == q) by {
                if q < j {
                    if !is_closest(acts@, interval_target(now_ms, q), None) {
                        let k = choose|k: int| 0 <= k < prev.len() && #[trigger] prev[k].0 == q;
                        assert(out@[k] == prev[k]);
                    }
                } else {
                    assert(out@[prev.len() as int].0 == q);
                }
            }
        }
        j = j + 1;
    }
    out
}

} // verus!
