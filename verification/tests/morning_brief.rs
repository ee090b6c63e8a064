use microscope_memory::morning::{
    closest_activation, greeting, intervals, spaced_item, spaced_picks, window_index, DAY_MS,
    TIME_TOLERANCE_MS, WEEK_MS,
};

#[test]
fn test_intervals() {
    assert_eq!(intervals().len(), 4);
    assert!(intervals()[0].0 < intervals()[1].0);
}

#[test]
fn test_time_tolerance() {
    assert_eq!(TIME_TOLERANCE_MS, DAY_MS / 2);
}

// ─── Additional checks ─────────────────────────────

#[test]
fn morning_interval_table() {
    let iv = intervals();
    assert_eq!(iv[0], (86_400_000, "1 day ago"));
    assert_eq!(iv[1], (WEEK_MS, "1 week ago"));
    assert_eq!(iv[2].1, "1 month ago");
    assert_eq!(iv[3].0, 365 * DAY_MS);
}

#[test]
fn morning_greeting_and_window() {
    assert_eq!(greeting(0), "Good night");
    assert_eq!(greeting(5), "Good night");
    assert_eq!(greeting(6), "Good morning");
    assert_eq!(greeting(12), "Good afternoon");
    assert_eq!(greeting(18), "Good evening");
    assert_eq!(window_index(0), 0);
    assert_eq!(window_index(13 * 3_600_000), 3);
    assert_eq!(window_index(23 * 3_600_000 + 5), 5);
}

#[test]
fn morning_closest_activation() {
    let target = 10 * DAY_MS;
    let acts = vec![
        (0u32, target),                // never activated: skipped
        (3, target + 5_000),           // 5 s away
        (1, target - 2_000),           // 2 s away: best
        (2, target + 2_000),           // tie: the first one wins
        (9, target + TIME_TOLERANCE_MS), // outside the tolerance
        (4, 0),                        // no timestamp
    ];
    assert_eq!(closest_activation(&acts, target), Some(2));
    assert_eq!(closest_activation(&acts[4..], target), None);
}

#[test]
fn morning_spaced_picks() {
    let now = 400 * DAY_MS;
    let acts = vec![(1u32, now - DAY_MS + 1000), (1, now - 365 * DAY_MS - 10), (1, now)];
    let picks = spaced_picks(&acts, now);
    assert_eq!(picks, vec![(0, 0), (3, 1)]);
    let item = spaced_item(3, "line one\nline two", 1);
    assert_eq!(item.interval_label, "1 year ago");
    assert_eq!(item.text_preview, "line oneline two");
    assert_eq!(item.block_idx, 1);
    let long = "y".repeat(150);
    assert_eq!(spaced_item(0, &long, 0).text_preview.len(), 100);
}

#[test]
fn morning_closest_activation_measures_signed_distance() {
    // Times from 2^63 up are taken as signed numbers: near each other they
    // are near, whatever their size.
    let base = 1u64 << 63;
    let acts = vec![(1u32, base + 5), (1u32, base + 50)];
    assert_eq!(closest_activation(&acts, base + 2), Some(0));
}
