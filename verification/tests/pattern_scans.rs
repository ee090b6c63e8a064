use microscope_memory::pattern_recognition::{
    count_runs, daily_rhythms, day_part, graph_motifs, intern_names, scan_motifs, slot_groups,
    time_slot,
};

fn strings(v: &[&str]) -> Vec<String> {
    v.iter().map(|s| s.to_string()).collect()
}

#[test]
fn intern_names_numbers_first_occurrences() {
    let (nodes, ids) = intern_names(&strings(&["b", "a", "b", "c", "a"]));
    assert_eq!(nodes, strings(&["b", "a", "c"]));
    assert_eq!(ids, vec![0, 1, 0, 2, 1]);
}

#[test]
fn graph_motifs_fan_out_and_fan_in() {
    // A fans out to B, C, D; E gathers from B, C, D.
    let from = strings(&["A", "A", "A", "B", "C", "D"]);
    let to = strings(&["B", "C", "D", "E", "E", "E"]);
    let g = graph_motifs(&from, &to);
    assert_eq!(g.nodes, strings(&["A", "B", "C", "D", "E"]));
    assert_eq!(g.scan.fan_out.len(), 1);
    assert_eq!(g.scan.fan_out[0].node, 0);
    assert_eq!(g.scan.fan_out[0].ends, vec![1, 2, 3]);
    assert_eq!(g.scan.fan_in.len(), 1);
    assert_eq!(g.scan.fan_in[0].node, 4);
    assert_eq!(g.scan.fan_in[0].ends, vec![1, 2, 3]);
    // Degrees 3, 2, 2, 2, 3: no node reaches four.
    assert!(g.scan.hubs.is_empty());
}

#[test]
fn graph_motifs_hub() {
    // H joined to five leaves: degree 5 > 2 * (10 / 6) and >= 4.
    let from = strings(&["H", "H", "H", "H", "H"]);
    let to = strings(&["a", "b", "c", "d", "e"]);
    let g = graph_motifs(&from, &to);
    assert_eq!(g.scan.hubs, vec![(0, 5)]);
    assert_eq!(g.scan.fan_out.len(), 1);
    assert_eq!(g.scan.fan_out[0].ends.len(), 5);
    assert!(g.scan.fan_in.is_empty());
}

#[test]
fn scan_motifs_degree_must_exceed_twice_the_mean() {
    // A ring of four nodes with a chord: every degree is 2 or 3.
    let s = scan_motifs(&vec![0, 1, 2, 3, 0], &vec![1, 2, 3, 0, 2], 4);
    assert!(s.hubs.is_empty());
    // Four edges at node 0 among 5 nodes: 4 * 5 = 20 > 4 * 4.
    let s = scan_motifs(&vec![0, 0, 0, 0], &vec![1, 2, 3, 4], 5);
    assert_eq!(s.hubs, vec![(0, 4)]);
    // Four edge ends at node 0 among 3 nodes: 4 * 3 = 12 is not > 16.
    let s = scan_motifs(&vec![0, 0, 1, 2], &vec![1, 2, 0, 0], 3);
    assert!(s.hubs.is_empty());
    // A loop counts twice: out 4 and in 1 at node 0 among 4 nodes.
    let s = scan_motifs(&vec![0, 0, 0, 0], &vec![1, 2, 3, 0], 4);
    assert_eq!(s.hubs, vec![(0, 5)]);
}

#[test]
fn time_slots_by_hour_and_weekday() {
    assert_eq!(time_slot(0), (0, 0));
    // 1970-01-02 07:30 is day 1, hour 7.
    assert_eq!(time_slot((86_400 + 7 * 3600 + 1800) * 1000), (7, 1));
    // Eight days later wraps to day 1 again.
    assert_eq!(time_slot((8 * 86_400 + 23 * 3600) * 1000 + 999), (23, 1));
}

#[test]
fn slot_groups_in_first_order() {
    let h = 3_600_000u64;
    let times = vec![9 * h, 14 * h, 9 * h + 60_000, 14 * h + 5, 20 * h];
    let groups = slot_groups(&times);
    assert_eq!(groups.len(), 3);
    assert_eq!(groups[0].slot, (9, 0));
    assert_eq!(groups[0].events, vec![0, 2]);
    assert_eq!(groups[1].slot, (14, 0));
    assert_eq!(groups[1].events, vec![1, 3]);
    assert_eq!(groups[2].slot, (20, 0));
    assert_eq!(groups[2].events, vec![4]);
}

#[test]
fn daily_rhythms_need_over_two_fifths() {
    let h = 3_600_000u64;
    assert_eq!(day_part(0), ("reggel", 6, 12));
    assert_eq!(day_part(3), ("hajnal", 0, 6));
    // Four of five events in the morning: 4 * 5 > 2 * 5.
    let times = vec![7 * h, 8 * h, 9 * h, 10 * h, 20 * h];
    assert_eq!(daily_rhythms(&times), vec![(0, 4)]);
    // Two of five in the afternoon is exactly two fifths: not a rhythm.
    let times = vec![13 * h, 14 * h, 2 * h, 3 * h, 4 * h];
    assert_eq!(daily_rhythms(&times), vec![(3, 3)]);
    // Noon belongs to both morning and afternoon.
    let times = vec![12 * h, 12 * h];
    assert_eq!(daily_rhythms(&times), vec![(0, 2), (1, 2)]);
    assert!(daily_rhythms(&vec![]).is_empty());
}

#[test]
fn count_runs_counts_each_distinct_run() {
    let e = strings(&["a", "b", "a", "b", "c"]);
    let runs = count_runs(&e, 3);
    let got: Vec<(Vec<String>, usize)> = runs.iter().map(|r| (r.items.clone(), r.count)).collect();
    assert_eq!(
        got,
        vec![
            (strings(&["a", "b"]), 2),
            (strings(&["b", "a"]), 1),
            (strings(&["b", "c"]), 1),
            (strings(&["a", "b", "a"]), 1),
            (strings(&["b", "a", "b"]), 1),
            (strings(&["a", "b", "c"]), 1),
        ]
    );
    // The window bounds the run length; a window below two gives nothing.
    assert_eq!(count_runs(&e, 2).len(), 3);
    assert!(count_runs(&e, 1).is_empty());
    assert!(count_runs(&strings(&["x"]), 4).is_empty());
}
