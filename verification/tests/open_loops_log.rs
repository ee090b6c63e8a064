use microscope_memory::open_loops::resolved_timeline_text;
use microscope_memory::open_loops::{
    append_open, archive, next_id, try_append_open, read_all, read_latest, read_open, resolve, encode_entry,
    OpenLoopEntry, STATUS_ARCHIVED, STATUS_OPEN, STATUS_RESOLVED,
};

/// An in-memory log plus id file, written as the application writes them.
struct Store {
    log: Vec<u8>,
    idx: String,
}

impl Store {
    fn new() -> Self {
        Store { log: Vec::new(), idx: String::new() }
    }
    fn append(&mut self, text: &str, importance: u8, ts: u64) -> u64 {
        let plan = append_open(&self.idx, self.log.is_empty(), ts, text, importance);
        self.log.extend_from_slice(&plan.log_bytes);
        self.idx = plan.idx_text;
        plan.id
    }
    fn write(&mut self, e: &OpenLoopEntry) {
        let bytes = encode_entry(e, self.log.is_empty());
        self.log.extend_from_slice(&bytes);
    }
    fn resolve(&mut self, id: u64, ts: u64) -> bool {
        match resolve(&self.log, id, ts) {
            Some(e) => {
                self.write(&e);
                true
            }
            None => false,
        }
    }
}

#[test]
fn test_append_and_read_open() {
    let mut store = Store::new();
    let id1 = store.append("task A", 7, 100);
    let id2 = store.append("task B", 9, 200);
    assert_eq!(id1, 1);
    assert_eq!(id2, 2);

    let open = read_open(&store.log);
    assert_eq!(open.len(), 2);
    // Importance desc -> B first.
    assert_eq!(open[0].text, "task B");
    assert_eq!(open[1].text, "task A");
}

#[test]
fn test_resolve_hides_from_open() {
    let mut store = Store::new();
    let id = store.append("doomed task", 5, 100);
    let changed = store.resolve(id, 200);
    assert!(changed);

    let open = read_open(&store.log);
    assert!(open.is_empty());

    // Idempotent: second resolve returns false.
    let changed2 = store.resolve(id, 300);
    assert!(!changed2);
}

#[test]
fn test_latest_status_per_id() {
    let mut store = Store::new();
    let id = store.append("test", 5, 100);
    store.resolve(id, 200);

    let latest = read_latest(&store.log);
    assert_eq!(latest.len(), 1);
    assert_eq!(latest[0].id, id);
    assert_eq!(latest[0].status, STATUS_RESOLVED);

    // Raw log should have 2 entries (open + resolved).
    let raw = read_all(&store.log);
    assert_eq!(raw.len(), 2);
}

#[test]
fn test_resolve_unknown_id_returns_false() {
    let mut store = Store::new();
    let changed = store.resolve(9999, 100);
    assert!(!changed);
}

// ─── Additional checks ─────────────────────────────

#[test]
fn open_loops_entry_bytes_layout() {
    let e = OpenLoopEntry { id: 3, ts_ms: 0x0102, importance: 7, status: 0, text: "hi".to_string() };
    let b = encode_entry(&e, true);
    assert_eq!(
        b,
        vec![
            b'O', b'P', b'L', b'1', 3, 0, 0, 0, 0, 0, 0, 0, 2, 1, 0, 0, 0, 0, 0, 0, 7, 0, 2, 0, 0,
            0, b'h', b'i'
        ]
    );
    let back = read_all(&b);
    assert_eq!(back.len(), 1);
    assert_eq!(back[0].id, 3);
    assert_eq!(back[0].ts_ms, 0x0102);
    assert_eq!(back[0].text, "hi");
}

#[test]
fn open_loops_text_truncated_to_max() {
    let long = "x".repeat(2000);
    let e = OpenLoopEntry { id: 1, ts_ms: 1, importance: 1, status: 0, text: long };
    let b = encode_entry(&e, true);
    assert_eq!(b.len(), 4 + 22 + 1024);
    assert_eq!(read_all(&b)[0].text.len(), 1024);
}

#[test]
fn open_loops_bad_header_and_truncated_tail() {
    assert!(read_all(b"XXXX").is_empty());
    assert!(read_all(b"").is_empty());
    let mut store = Store::new();
    store.append("one", 1, 1);
    store.append("two", 1, 2);
    let mut cut = store.log.clone();
    cut.pop();
    let entries = read_all(&cut);
    assert_eq!(entries.len(), 1);
    assert_eq!(entries[0].text, "one");
}

#[test]
fn open_loops_order_by_importance_then_newest() {
    let mut store = Store::new();
    store.append("low", 2, 500);
    store.append("old", 8, 100);
    store.append("new", 8, 300);
    store.append("same", 8, 300);
    let open = read_open(&store.log);
    let texts: Vec<&str> = open.iter().map(|e| e.text.as_str()).collect();
    assert_eq!(texts, vec!["new", "same", "old", "low"]);
}

#[test]
fn open_loops_archive_and_status() {
    let mut store = Store::new();
    let id = store.append("keep", 4, 10);
    let e = archive(&store.log, id, 20).unwrap();
    assert_eq!(e.status, STATUS_ARCHIVED);
    assert_eq!(e.text, "keep");
    assert_eq!(e.ts_ms, 20);
    store.write(&e);
    assert!(archive(&store.log, id, 30).is_none());
    assert!(read_open(&store.log).is_empty());
    assert_eq!(read_latest(&store.log)[0].status, STATUS_ARCHIVED);
    assert_eq!(read_latest(&store.log)[0].importance, 4);
    assert!(archive(&store.log, 77, 30).is_none());
    assert_eq!(STATUS_OPEN, 0);
}

#[test]
fn open_loops_resolve_needs_an_open_loop() {
    let mut store = Store::new();
    let id = store.append("parked", 3, 10);
    let e = archive(&store.log, id, 20).unwrap();
    store.write(&e);
    // An archived loop is not open: resolving it finds nothing.
    assert!(!store.resolve(id, 30));
    assert_eq!(read_latest(&store.log)[0].status, STATUS_ARCHIVED);
    // A resolved loop can still be archived.
    let id2 = store.append("done", 3, 40);
    assert!(store.resolve(id2, 50));
    let e2 = archive(&store.log, id2, 60).unwrap();
    assert_eq!(e2.status, STATUS_ARCHIVED);
}

#[test]
fn open_loops_next_id_parsing() {
    assert_eq!(next_id(""), 1);
    assert_eq!(next_id("41\n"), 42);
    assert_eq!(next_id("  7 "), 8);
    assert_eq!(next_id("+9"), 10);
    assert_eq!(next_id("abc"), 1);
    assert_eq!(next_id("-3"), 1);
    assert_eq!(next_id("99999999999999999999"), 1);
    let plan = append_open("41\n", true, 5, "t", 3);
    assert_eq!(plan.id, 42);
    assert_eq!(plan.idx_text, "42\n");
    assert!(try_append_open("18446744073709551615\n", true, 5, "t", 3).is_none());
    let plan = try_append_open("1\n", false, 5, "t", 3).unwrap();
    assert_eq!(plan.id, 2);
}

#[test]
fn open_loops_resolved_timeline_line() {
    assert_eq!(resolved_timeline_text(12, "ship it"), "[loop#12 resolved] ship it");
    assert_eq!(resolved_timeline_text(0, ""), "[loop#0 resolved] ");
}
