//! Open Loops — track unresolved tasks / TODOs / open questions.
//!
//! An open loop is a memory item flagged as "still in progress". The log is
//! append-only: resolving or archiving appends a new entry with the same id,
//! and the latest entry per id gives the current status.
//!
//! Log format: the file header `OPL1`, then entries of 22 header bytes and text:
//!   [u64 id][u64 ts_ms][u8 importance][u8 status][u32 text_len][text bytes]
use vstd::prelude::*;
use vstd::utf8::{encode_utf8, encode_utf8_decode_utf8, encode_utf8_valid_utf8};
use crate::codec::{
    le_bytes, le_value, lemma_le_bytes_len, lemma_le_value_of_bytes, lemma_pow256_values, push_le,
    read_le,
};
use crate::text::{
    decimal, lossy_string, lossy_text, parse_trimmed_u64, parse_u64_spec, push_decimal, push_str,
    string_push,
    trim,
};

verus! {

/// Longest stored text, in bytes.
pub const MAX_TEXT_LEN: usize = 1024;

pub const STATUS_OPEN: u8 = 0;

pub const STATUS_RESOLVED: u8 = 1;

pub const STATUS_ARCHIVED: u8 = 2;

/// Bytes of an entry before its text.
pub const ENTRY_HEADER: usize = 22;

#[derive(Debug)]
pub struct OpenLoopEntry {
    pub id: u64,
    pub ts_ms: u64,
    pub importance: u8,
    pub status: u8,
    pub text: String,
}

/// Mathematical value of an entry.
pub struct LoopRecord {
    pub id: u64,
    pub ts_ms: u64,
    pub importance: u8,
    pub status: u8,
    pub text: Seq<char>,
}

impl View for OpenLoopEntry {
    type V = LoopRecord;

    open spec fn view(&self) -> LoopRecord {
        LoopRecord {
            id: self.id,
            ts_ms: self.ts_ms,
            importance: self.importance,
            status: self.status,
            text: self.text@,
        }
    }
}

/// Values of a sequence of entries.
pub open spec fn records(v: Seq<OpenLoopEntry>) -> Seq<LoopRecord> {
    v.map_values(|e: OpenLoopEntry| e@)
}

/// The file header.
pub open spec fn magic() -> Seq<u8> {
    seq![0x4fu8, 0x50u8, 0x4cu8, 0x31u8]
}

/// Number of text bytes an entry stores: at most `MAX_TEXT_LEN`.
pub open spec fn stored_len(text: Seq<char>) -> nat {
    let n = encode_utf8(text).len();
    if n < 1024 {
        n
    } else {
        1024
    }
}

/// The bytes of one entry in the log.
pub open spec fn entry_bytes(r: LoopRecord) -> Seq<u8> {
    le_bytes(r.id as nat, 8) + le_bytes(r.ts_ms as nat, 8) + seq![r.importance, r.status]
        + le_bytes(stored_len(r.text), 4) + encode_utf8(r.text).take(stored_len(r.text) as int)
}

/// The entries a log holds from byte `pos` on: complete entries are read until
/// fewer than 22 bytes remain or a text runs past the end.
pub open spec fn parse_entries(data: Seq<u8>, pos: int) -> Seq<LoopRecord>
    decreases data.len() - pos,
{
    if pos + 22 > data.len() {
        Seq::empty()
    } else {
        let tl = le_value(data.subrange(pos + 18, pos + 22));
        if pos + 22 + tl > data.len() {
            Seq::empty()
        } else {
            let r = LoopRecord {
                id: le_value(data.subrange(pos, pos + 8)) as u64,
                ts_ms: le_value(data.subrange(pos + 8, pos + 16)) as u64,
                importance: data[pos + 16],
                status: data[pos + 17],
                text: lossy_text(data.subrange(pos + 22, pos + 22 + tl)),
            };
            seq![r] + parse_entries(data, pos + 22 + tl)
        }
    }
}

/// The entries of a whole log: none unless it starts with the header.
pub open spec fn log_entries(data: Seq<u8>) -> Seq<LoopRecord> {
    if data.len() < 4 || data.subrange(0, 4) != magic() {
        Seq::empty()
    } else {
        parse_entries(data, 4)
    }
}

/// Bytes of a sequence of entries written one after another.
pub open spec fn entries_bytes(rs: Seq<LoopRecord>) -> Seq<u8>
    decreases rs.len(),
{
    if rs.len() == 0 {
        Seq::empty()
    } else {
        entry_bytes(rs[0]) + entries_bytes(rs.drop_first())
    }
}

/// The text of an entry is stored whole (its UTF-8 form fits in `MAX_TEXT_LEN` bytes).
pub open spec fn text_fits(r: LoopRecord) -> bool {
    encode_utf8(r.text).len() <= 1024
}

pub proof fn lemma_entry_bytes_layout(r: LoopRecord)
    requires
        text_fits(r),
    ensures
        entry_bytes(r).len() == 22 + encode_utf8(r.text).len(),
        le_value(entry_bytes(r).subrange(0, 8)) == r.id,
        le_value(entry_bytes(r).subrange(8, 16)) == r.ts_ms,
        entry_bytes(r)[16] == r.importance,
        entry_bytes(r)[17] == r.status,
        le_value(entry_bytes(r).subrange(18, 22)) == encode_utf8(r.text).len(),
        entry_bytes(r).subrange(22, entry_bytes(r).len() as int) == encode_utf8(r.text),
{
    let t = encode_utf8(r.text);
    let n = t.len();
    lemma_pow256_values();
    lemma_le_bytes_len(r.id as nat, 8);
    lemma_le_bytes_len(r.ts_ms as nat, 8);
    lemma_le_bytes_len(n, 4);
    lemma_le_value_of_bytes(r.id as nat, 8);
    lemma_le_value_of_bytes(r.ts_ms as nat, 8);
    lemma_le_value_of_bytes(n, 4);
    let b = entry_bytes(r);
    assert(stored_len(r.text) == n);
    assert(t.take(n as int) =~= t);
    assert(b.subrange(0, 8) =~= le_bytes(r.id as nat, 8));
    assert(b.subrange(8, 16) =~= le_bytes(r.ts_ms as nat, 8));
    assert(b.subrange(18, 22) =~= le_bytes(n, 4));
    assert(b.subrange(22, b.len() as int) =~= t);
}

/// One stored entry parses back to itself, and parsing goes on right after it.
pub proof fn lemma_parse_one(p: Seq<u8>, r: LoopRecord, rest: Seq<u8>)
    requires
        text_fits(r),
    ensures
        parse_entries(p + entry_bytes(r) + rest, p.len() as int) == seq![r] + parse_entries(
            p + entry_bytes(r) + rest,
            (p.len() + entry_bytes(r).len()) as int,
        ),
{
    broadcast use encode_utf8_valid_utf8, encode_utf8_decode_utf8;

    lemma_entry_bytes_layout(r);
    let e = entry_bytes(r);
    let data = p + e + rest;
    let pos = p.len() as int;
    let t = encode_utf8(r.text);
    assert(data.subrange(pos, pos + 8) =~= e.subrange(0, 8));
    assert(data.subrange(pos + 8, pos + 16) =~= e.subrange(8, 16));
    assert(data.subrange(pos + 18, pos + 22) =~= e.subrange(18, 22));
    assert(data[pos + 16] == e[16]);
    assert(data[pos + 17] == e[17]);
    assert(data.subrange(pos + 22, pos + 22 + t.len()) =~= e.subrange(22, e.len() as int));
    let tl = le_value(data.subrange(pos + 18, pos + 22));
    assert(tl == t.len());
    let r2 = LoopRecord {
        id: le_value(data.subrange(pos, pos + 8)) as u64,
        ts_ms: le_value(data.subrange(pos + 8, pos + 16)) as u64,
        importance: data[pos + 16],
        status: data[pos + 17],
        text: lossy_text(data.subrange(pos + 22, pos + 22 + tl)),
    };
    assert(r2 == r);
}

/// Entries written after `p` parse back as written.
pub proof fn lemma_parse_entries_bytes(p: Seq<u8>, rs: Seq<LoopRecord>)
    requires
        forall|i: int| 0 <= i < rs.len() ==> text_fits(#[trigger] rs[i]),
    ensures
        parse_entries(p + entries_bytes(rs), p.len() as int) == rs,
    decreases rs.len(),
{
    if rs.len() == 0 {
        assert(p + entries_bytes(rs) =~= p);
        assert(parse_entries(p, p.len() as int) =~= Seq::<LoopRecord>::empty());
    } else {
        let r = rs[0];
        let tail = rs.drop_first();
        assert(text_fits(rs[0]));
        assert forall|i: int| 0 <= i < tail.len() implies text_fits(#[trigger] tail[i]) by {
            assert(tail[i] == rs[i + 1]);
        }
        let data = p + entries_bytes(rs);
        assert(data =~= p + entry_bytes(r) + entries_bytes(tail));
        lemma_parse_one(p, r, entries_bytes(tail));
        lemma_parse_entries_bytes(p + entry_bytes(r), tail);
        assert(data =~= (p + entry_bytes(r)) + entries_bytes(tail));
        assert(seq![r] + tail =~= rs);
    }
}

/// Writing one more entry appends its bytes.
pub proof fn lemma_entries_bytes_push(rs: Seq<LoopRecord>, r: LoopRecord)
    ensures
        entries_bytes(rs.push(r)) == entries_bytes(rs) + entry_bytes(r),
    decreases rs.len(),
{
    if rs.len() == 0 {
        assert(rs.push(r).drop_first() =~= Seq::<LoopRecord>::empty());
        assert(rs.push(r)[0] == r);
        assert(entries_bytes(Seq::<LoopRecord>::empty()) =~= Seq::<u8>::empty());
        assert(entries_bytes(rs) =~= Seq::<u8>::empty());
        assert(entries_bytes(rs.push(r)) =~= entry_bytes(r) + Seq::<u8>::empty());
    } else {
        lemma_entries_bytes_push(rs.drop_first(), r);
        assert(rs.push(r).drop_first() =~= rs.drop_first().push(r));
        assert(entries_bytes(rs.push(r)) =~= entry_bytes(rs[0]) + (entries_bytes(rs.drop_first())
            + entry_bytes(r)));
    }
}

/// Law: a log written by appending entries whose texts are stored whole reads
/// back as exactly those entries, in order.
pub proof fn lemma_log_roundtrip(rs: Seq<LoopRecord>)
    requires
        forall|i: int| 0 <= i < rs.len() ==> text_fits(#[trigger] rs[i]),
    ensures
        log_entries(magic() + entries_bytes(rs)) == rs,
{
    let data = magic() + entries_bytes(rs);
    assert(data.subrange(0, 4) =~= magic());
    lemma_parse_entries_bytes(magic(), rs);
}

/// Law: appending an entry to such a log adds exactly that entry at the end of
/// what the log reads as.
pub proof fn lemma_log_append(rs: Seq<LoopRecord>, r: LoopRecord)
    requires
        forall|i: int| 0 <= i < rs.len() ==> text_fits(#[trigger] rs[i]),
        text_fits(r),
    ensures
        log_entries(magic() + entries_bytes(rs) + entry_bytes(r)) == rs.push(r),
{
    lemma_entries_bytes_push(rs, r);
    assert(magic() + entries_bytes(rs) + entry_bytes(r) =~= magic() + entries_bytes(rs.push(r)));
    assert forall|i: int| 0 <= i < rs.push(r).len() implies text_fits(#[trigger] rs.push(r)[i]) by {
        if i < rs.len() {
            assert(rs.push(r)[i] == rs[i]);
        }
    }
    lemma_log_roundtrip(rs.push(r));
}

// ─── Current state of each loop ─────────────────────

/// Index of the last entry of `log` with `id`, or -1 when there is none.
pub open spec fn last_index(log: Seq<LoopRecord>, id: u64) -> int
    decreases log.len(),
{
    if log.len() == 0 {
        -1
    } else if log.last().id == id {
        log.len() - 1
    } else {
        last_index(log.drop_last(), id)
    }
}

/// `r` holds the current state of every loop of `log`: one entry per id, in
/// increasing id order, each the last entry written for its id.
pub open spec fn is_latest(r: Seq<LoopRecord>, log: Seq<LoopRecord>) -> bool {
    &&& forall|a: int, b: int| 0 <= a < b < r.len() ==> r[a].id < r[b].id
    &&& forall|k: int|
        0 <= k < r.len() ==> last_index(log, #[trigger] r[k].id) >= 0 && r[k] == log[last_index(
            log,
            r[k].id,
        )]
    &&& forall|m: int| 0 <= m < log.len() ==> has_id(r, #[trigger] log[m].id)
}

/// Some entry of `r` has `id`.
pub open spec fn has_id(r: Seq<LoopRecord>, id: u64) -> bool {
    exists|k: int| 0 <= k < r.len() && #[trigger] r[k].id == id
}

pub proof fn lemma_last_index(log: Seq<LoopRecord>, id: u64)
    ensures
        -1 <= last_index(log, id) < log.len(),
        last_index(log, id) >= 0 ==> log[last_index(log, id)].id == id,
        last_index(log, id) < 0 ==> forall|m: int| 0 <= m < log.len() ==> #[trigger] log[m].id != id,
        forall|m: int| last_index(log, id) < m < log.len() ==> #[trigger] log[m].id != id,
    decreases log.len(),
{
    if log.len() > 0 {
        lemma_last_index(log.drop_last(), id);
        assert forall|m: int| 0 <= m < log.len() - 1 implies #[trigger] log[m] == log.drop_last()[m] by {}
    }
}

pub proof fn lemma_last_index_push(log: Seq<LoopRecord>, e: LoopRecord, id: u64)
    ensures
        last_index(log.push(e), id) == if e.id == id {
            log.len() as int
        } else {
            last_index(log, id)
        },
{
    assert(log.push(e).drop_last() =~= log);
}

/// The current state of each loop, from the raw entries of a log.
pub fn latest_of(all: &Vec<OpenLoopEntry>) -> (r: Vec<OpenLoopEntry>)
    ensures
        is_latest(records(r@), records(all@)),
{
    let n: usize = all.len();
    let ghost log = records(all@);
    let mut out: Vec<OpenLoopEntry> = Vec::new();
    let mut j: usize = 0;
    while j < n
        invariant
            j <= n,
            n == all@.len(),
            log == records(all@),
            is_latest(records(out@), log.take(j as int)),
        decreases n - j,
    {
        let e = &all[j];
        let ghost lj = log.take(j as int);
        let ghost lj1 = log.take(j + 1);
        assert(lj1 =~= lj.push(e@));
        let ghost r = records(out@);
        let m: usize = out.len();
        let mut k: usize = 0;
        while k < m && out[k].id < e.id
            invariant
                k <= m,
                m == out@.len(),
                r == records(out@),
                forall|a: int| 0 <= a < k ==> #[trigger] r[a].id < e.id,
            decreases m - k,
        {
            k = k + 1;
        }
        assert forall|id: u64| #[trigger] last_index(lj1, id) == (if e@.id == id {
            j as int
        } else {
            last_index(lj, id)
        }) by {
            lemma_last_index_push(lj, e@, id);
        }
        if k < m && out[k].id == e.id {
            let c = copy_entry(e);
            out.set(k, c);
            let ghost r2 = records(out@);
            assert(r2 =~= r.update(k as int, e@));
            assert forall|a: int, b: int| 0 <= a < b < r2.len() implies r2[a].id < r2[b].id by {
                assert(r2[a].id == r[a].id && r2[b].id == r[b].id);
            }
            assert forall|q: int| 0 <= q < r2.len() implies last_index(lj1, #[trigger] r2[q].id)
                >= 0 && r2[q] == lj1[last_index(lj1, r2[q].id)] by {
                lemma_last_index(lj, r[q].id);
                if q != k {
                    assert(r[q].id != e@.id) by {
                        if q < k {
                            assert(r[q].id < r[k as int].id);
                        } else {
                            assert(r[k as int].id < r[q].id);
                        }
                    }
                    assert(r2[q] == r[q]);
                    assert(lj1[last_index(lj, r[q].id)] == lj[last_index(lj, r[q].id)]);
                }
            }
            assert forall|mm: int| 0 <= mm < lj1.len() implies has_id(r2, #[trigger] lj1[mm].id) by {
                if mm < j {
                    assert(lj1[mm] == lj[mm]);
                    let q = choose|q: int| 0 <= q < r.len() && #[trigger] r[q].id == lj[mm].id;
                    assert(r2[q].id == r[q].id);
                } else {
                    assert(r2[k as int].id == lj1[mm].id);
                }
            }
        } else {
            let c = copy_entry(e);
            out.insert(k, c);
            let ghost r2 = records(out@);
            assert(r2 =~= r.insert(k as int, e@));
            proof {
                lemma_last_index(lj, e@.id);
                assert forall|q: int| 0 <= q < r.len() implies #[trigger] r[q].id != e@.id by {
                    if q >= k {
                        if q > k {
                            assert(r[k as int].id < r[q].id);
                        }
                    }
                }
                assert(last_index(lj, e@.id) < 0) by {
                    if last_index(lj, e@.id) >= 0 {
                        let mm = last_index(lj, e@.id);
                        let q = choose|q: int| 0 <= q < r.len() && #[trigger] r[q].id == lj[mm].id;
                        assert(r[q].id == e@.id);
                    }
                }
            }
            assert forall|a: int, b: int| 0 <= a < b < r2.len() implies r2[a].id < r2[b].id by {
                if b < k {
                } else if a < k && b == k {
                } else if a < k && b > k {
                    assert(r2[b] == r[b - 1]);
                    if k < m {
                        assert(r[a].id < e@.id);
                        assert(r[k as int].id > e@.id);
                        if b - 1 > k {
                            assert(r[k as int].id < r[b - 1].id);
                        }
                    }
                } else if a == k {
                    assert(r2[b] == r[b - 1]);
                    assert(r[k as int].id > e@.id);
                    if b - 1 > k {
                        assert(r[k as int].id < r[b - 1].id);
                    }
                } else {
                    assert(r2[a] == r[a - 1]);
                    assert(r2[b] == r[b - 1]);
                }
            }
            assert forall|q: int| 0 <= q < r2.len() implies last_index(lj1, #[trigger] r2[q].id)
                >= 0 && r2[q] == lj1[last_index(lj1, r2[q].id)] by {
                if q != k {
                    let q0 = if q < k {
                        q
                    } else {
                        q - 1
                    };
                    assert(r2[q] == r[q0]);
                    lemma_last_index(lj, r[q0].id);
                    assert(lj1[last_index(lj, r[q0].id)] == lj[last_index(lj, r[q0].id)]);
                }
            }
            assert forall|mm: int| 0 <= mm < lj1.len() implies has_id(r2, #[trigger] lj1[mm].id) by {
                if mm < j {
                    assert(lj1[mm] == lj[mm]);
                    let q = choose|q: int| 0 <= q < r.len() && #[trigger] r[q].id == lj[mm].id;
                    if q < k {
                        assert(r2[q].id == r[q].id);
                    } else {
                        assert(r2[q + 1].id == r[q].id);
                    }
                } else {
                    assert(r2[k as int].id == lj1[mm].id);
                }
            }
        }
        j = j + 1;
    }
    assert(log.take(n as int) =~= log);
    out
}

/// Read the current status of all known loops (the latest entry per id wins),
/// in increasing id order.
pub fn read_latest(data: &[u8]) -> (r: Vec<OpenLoopEntry>)
    ensures
        is_latest(records(r@), log_entries(data@)),
{
    let all = read_all(data);
    latest_of(&all)
}

// ─── Open loops ─────────────────────────────────────

/// Listing order of open loops: importance descending, then newest first,
/// then (as the stable sort over the id-ordered list leaves them) by id.
pub open spec fn open_before(a: LoopRecord, b: LoopRecord) -> bool {
    a.importance > b.importance || (a.importance == b.importance && (a.ts_ms > b.ts_ms || (a.ts_ms
        == b.ts_ms && a.id < b.id)))
}

/// The current entry of `id` in `log` is open.
pub open spec fn currently_open(log: Seq<LoopRecord>, id: u64) -> bool {
    last_index(log, id) >= 0 && log[last_index(log, id)].status == 0
}

/// `r` lists the loops of `log` whose current status is open, each by its
/// current entry, in listing order.
pub open spec fn is_open_list(r: Seq<LoopRecord>, log: Seq<LoopRecord>) -> bool {
    &&& forall|a: int, b: int| 0 <= a < b < r.len() ==> open_before(r[a], r[b])
    &&& forall|k: int|
        0 <= k < r.len() ==> currently_open(log, #[trigger] r[k].id) && r[k] == log[last_index(
            log,
            r[k].id,
        )]
    &&& forall|m: int|
        0 <= m < log.len() && currently_open(log, #[trigger] log[m].id) ==> has_id(r, log[m].id)
}

/// Return only currently-open loops, sorted by importance desc, then ts desc.
pub fn read_open(data: &[u8]) -> (r: Vec<OpenLoopEntry>)
    ensures
        is_open_list(records(r@), log_entries(data@)),
{
    let latest = read_latest(data);
    let ghost log = log_entries(data@);
    let ghost l = records(latest@);
    let n: usize = latest.len();
    let mut out: Vec<OpenLoopEntry> = Vec::new();
    let mut k: usize = 0;
    while k < n
        invariant
            k <= n,
            n == latest@.len(),
            l == records(latest@),
            is_latest(l, log),
            forall|a: int, b: int|
                0 <= a < b < out@.len() ==> open_before(records(out@)[a], records(out@)[b]),
            forall|a: int|
                #![trigger records(out@)[a]]
                0 <= a < out@.len() ==> exists|q: int|
                    0 <= q < k && #[trigger] l[q] == records(out@)[a] && l[q].status == 0,
            forall|q: int| 0 <= q < k && #[trigger] l[q].status == 0 ==> has_id(records(out@), l[q].id),
        decreases n - k,
    {
        let e = &latest[k];
        if e.status == STATUS_OPEN {
            let ghost r = records(out@);
            let m: usize = out.len();
            let mut pos: usize = 0;
            while pos < m && !open_before_exec(e, &out[pos])
                invariant
                    pos <= m,
                    m == out@.len(),
                    r == records(out@),
                    forall|a: int| 0 <= a < pos ==> !open_before(e@, #[trigger] r[a]),
                decreases m - pos,
            {
                pos = pos + 1;
            }
            let c = copy_entry(e);
            out.insert(pos, c);
            let ghost r2 = records(out@);
            assert(r2 =~= r.insert(pos as int, e@));
            assert forall|a: int| 0 <= a < r.len() implies #[trigger] r[a].id < e@.id by {
                let q = choose|q: int| 0 <= q < k && #[trigger] l[q] == r[a] && l[q].status == 0;
                assert(l[q].id < l[k as int].id);
            }
            assert forall|a: int, b: int| 0 <= a < b < r2.len() implies open_before(r2[a], r2[b]) by {
                if b < pos {
                } else if a < pos && b == pos {
                    assert(r[a].id < e@.id);
                } else if a < pos && b > pos {
                    assert(r2[b] == r[b - 1]);
                } else if a == pos {
                    assert(r2[b] == r[b - 1]);
                    if b - 1 > pos {
                        assert(open_before(r[pos as int], r[b - 1]));
                    }
                } else {
                    assert(r2[a] == r[a - 1]);
                    assert(r2[b] == r[b - 1]);
                }
            }
            assert forall|a: int| #![trigger r2[a]] 0 <= a < r2.len() implies exists|q: int|
                0 <= q < k + 1 && #[trigger] l[q] == r2[a] && l[q].status == 0 by {
                if a < pos {
                    let q = choose|q: int| 0 <= q < k && #[trigger] l[q] == r[a] && l[q].status == 0;
                    assert(l[q] == r2[a]);
                } else if a == pos {
                    assert(l[k as int] == r2[a]);
                } else {
                    let q = choose|q: int|
                        0 <= q < k && #[trigger] l[q] == r[a - 1] && l[q].status == 0;
                    assert(l[q] == r2[a]);
                }
            }
            assert forall|q: int| 0 <= q < k + 1 && #[trigger] l[q].status == 0 implies has_id(
                r2,
                l[q].id,
            ) by {
                if q < k {
                    let a = choose|a: int| 0 <= a < r.len() && #[trigger] r[a].id == l[q].id;
                    if a < pos {
                        assert(r2[a].id == l[q].id);
                    } else {
                        assert(r2[a + 1].id == l[q].id);
                    }
                } else {
                    assert(r2[pos as int].id == l[q].id);
                }
            }
        }
        k = k + 1;
    }
    let ghost r = records(out@);
    assert forall|a: int| 0 <= a < r.len() implies currently_open(log, #[trigger] r[a].id) && r[a]
        == log[last_index(log, r[a].id)] by {
        let q = choose|q: int| 0 <= q < n && #[trigger] l[q] == r[a] && l[q].status == 0;
        assert(l[q].id == r[a].id);
    }
    assert forall|mm: int| 0 <= mm < log.len() && currently_open(log, #[trigger] log[mm].id) implies has_id(
        r,
        log[mm].id,
    ) by {
        let q = choose|q: int| 0 <= q < l.len() && #[trigger] l[q].id == log[mm].id;
        assert(l[q].status == 0);
    }
    out
}

fn open_before_exec(a: &OpenLoopEntry, b: &OpenLoopEntry) -> (r: bool)
    ensures
        r == open_before(a@, b@),
{
    a.importance > b.importance || (a.importance == b.importance && (a.ts_ms > b.ts_ms || (a.ts_ms
        == b.ts_ms && a.id < b.id)))
}

// ─── Resolve / archive ──────────────────────────────

/// Whether a loop whose current status is `current` can be closed with
/// `status`: only an open loop is resolved; an open or resolved loop is
/// archived.
pub open spec fn may_close(current: u8, status: u8) -> bool {
    if status == 1 {
        current == 0
    } else {
        current == 0 || current == 1
    }
}

/// The entry that closing loop `id` with `status` at `ts_ms` appends: a copy of
/// the loop's current entry with the new status and time; `None` when the log
/// has no loop `id` or its current status may not be closed that way.
pub open spec fn closing_entry(log: Seq<LoopRecord>, id: u64, ts_ms: u64, status: u8) -> Option<
    LoopRecord,
> {
    let li = last_index(log, id);
    if li < 0 || !may_close(log[li].status, status) {
        None
    } else {
        Some(
            LoopRecord {
                id: id,
                ts_ms: ts_ms,
                importance: log[li].importance,
                status: status,
                text: log[li].text,
            },
        )
    }
}

fn close_loop(data: &[u8], id: u64, ts_ms: u64, status: u8) -> (r: Option<OpenLoopEntry>)
    requires
        status == 1 || status == 2,
    ensures
        r is None <==> closing_entry(log_entries(data@), id, ts_ms, status) is None,
        r matches Some(e) ==> closing_entry(log_entries(data@), id, ts_ms, status) == Some(e@),
{
    let latest = read_latest(data);
    let ghost log = log_entries(data@);
    let ghost l = records(latest@);
    let n: usize = latest.len();
    let mut k: usize = 0;
    while k < n
        invariant
            k <= n,
            n == latest@.len(),
            l == records(latest@),
            log == log_entries(data@),
            is_latest(l, log),
            forall|a: int| 0 <= a < k ==> #[trigger] l[a].id != id,
        decreases n - k,
    {
        if latest[k].id == id {
            let e = &latest[k];
            assert(l[k as int] == log[last_index(log, id)]);
            let allowed: bool = if status == STATUS_RESOLVED {
                e.status == STATUS_OPEN
            } else {
                e.status == STATUS_OPEN || e.status == STATUS_RESOLVED
            };
            if !allowed {
                return None;
            }
            return Some(
                OpenLoopEntry {
                    id,
                    ts_ms,
                    importance: e.importance,
                    status,
                    text: e.text.clone(),
                },
            );
        }
        k = k + 1;
    }
    proof {
        lemma_last_index(log, id);
        if last_index(log, id) >= 0 {
            let mm = last_index(log, id);
            assert(has_id(l, log[mm].id));
        }
    }
    None
}

/// Mark a loop resolved: the entry to append to the log when the loop is
/// currently open, else `None` (unknown, already resolved, or archived).
pub fn resolve(data: &[u8], id: u64, ts_ms: u64) -> (r: Option<OpenLoopEntry>)
    ensures
        r is None <==> closing_entry(log_entries(data@), id, ts_ms, 1) is None,
        r matches Some(e) ==> closing_entry(log_entries(data@), id, ts_ms, 1) == Some(e@),
{
    close_loop(data, id, ts_ms, STATUS_RESOLVED)
}

/// Archive a loop: the entry to append to the log when the loop is currently
/// open or resolved, else `None` (unknown or already archived).
pub fn archive(data: &[u8], id: u64, ts_ms: u64) -> (r: Option<OpenLoopEntry>)
    ensures
        r is None <==> closing_entry(log_entries(data@), id, ts_ms, 2) is None,
        r matches Some(e) ==> closing_entry(log_entries(data@), id, ts_ms, 2) == Some(e@),
{
    close_loop(data, id, ts_ms, STATUS_ARCHIVED)
}

/// The timeline line that records a resolved loop: `[loop#{id} resolved] {text}`.
pub open spec fn resolved_line(id: u64, text: Seq<char>) -> Seq<char> {
    "[loop#"@ + decimal(id as nat) + " resolved] "@ + text
}

/// The timeline text of a loop's resolution.
pub fn resolved_timeline_text(id: u64, text: &str) -> (r: String)
    ensures
        r@ == resolved_line(id, text@),
{
    let mut s = String::new();
    push_str(&mut s, "[loop#");
    push_decimal(&mut s, id);
    push_str(&mut s, " resolved] ");
    push_str(&mut s, text);
    assert(s@ =~= resolved_line(id, text@));
    s
}

// ─── Laws ───────────────────────────────────────────

/// Law: the current state of a log is unique — two lists that both hold one
/// current entry per id in increasing id order are equal.
pub proof fn lemma_latest_unique(r1: Seq<LoopRecord>, r2: Seq<LoopRecord>, log: Seq<LoopRecord>)
    requires
        is_latest(r1, log),
        is_latest(r2, log),
    ensures
        r1 == r2,
    decreases r1.len() + r2.len(),
{
    lemma_latest_same_ids(r1, r2, log);
    lemma_latest_same_ids(r2, r1, log);
    lemma_sorted_same_ids_equal_len(r1, r2);
    assert forall|k: int| 0 <= k < r1.len() implies r1[k] == r2[k] by {
        lemma_sorted_same_ids_same_position(r1, r2, k);
    }
    assert(r1 =~= r2);
}

/// Every id of one current-state list is an id of the other.
proof fn lemma_latest_same_ids(r1: Seq<LoopRecord>, r2: Seq<LoopRecord>, log: Seq<LoopRecord>)
    requires
        is_latest(r1, log),
        is_latest(r2, log),
    ensures
        forall|k: int| 0 <= k < r1.len() ==> has_id(r2, #[trigger] r1[k].id),
{
    assert forall|k: int| 0 <= k < r1.len() implies has_id(r2, #[trigger] r1[k].id) by {
        let li = last_index(log, r1[k].id);
        lemma_last_index(log, r1[k].id);
        assert(has_id(r2, log[li].id));
    }
}

/// Ids of a list of entries.
pub open spec fn ids(r: Seq<LoopRecord>) -> Seq<u64> {
    r.map_values(|x: LoopRecord| x.id)
}

/// Id-sorted lists with the same ids have the same length.
proof fn lemma_sorted_same_ids_equal_len(r1: Seq<LoopRecord>, r2: Seq<LoopRecord>)
    requires
        forall|a: int, b: int| 0 <= a < b < r1.len() ==> r1[a].id < r1[b].id,
        forall|a: int, b: int| 0 <= a < b < r2.len() ==> r2[a].id < r2[b].id,
        forall|k: int| 0 <= k < r1.len() ==> has_id(r2, #[trigger] r1[k].id),
        forall|k: int| 0 <= k < r2.len() ==> has_id(r1, #[trigger] r2[k].id),
    ensures
        r1.len() == r2.len(),
{
    let i1 = ids(r1);
    let i2 = ids(r2);
    lemma_ids_set_len(r1);
    lemma_ids_set_len(r2);
    assert forall|id: u64| i1.to_set().contains(id) implies i2.to_set().contains(id) by {
        let k = choose|k: int| 0 <= k < i1.len() && #[trigger] i1[k] == id;
        assert(has_id(r2, r1[k].id));
        let q = choose|q: int| 0 <= q < r2.len() && #[trigger] r2[q].id == r1[k].id;
        assert(i2[q] == id);
    }
    assert forall|id: u64| i2.to_set().contains(id) implies i1.to_set().contains(id) by {
        let k = choose|k: int| 0 <= k < i2.len() && #[trigger] i2[k] == id;
        assert(has_id(r1, r2[k].id));
        let q = choose|q: int| 0 <= q < r1.len() && #[trigger] r1[q].id == r2[k].id;
        assert(i1[q] == id);
    }
    assert(i1.to_set() =~= i2.to_set());
}

/// The ids of an id-sorted list are as many as its entries.
proof fn lemma_ids_set_len(r: Seq<LoopRecord>)
    requires
        forall|a: int, b: int| 0 <= a < b < r.len() ==> r[a].id < r[b].id,
    ensures
        ids(r).to_set().len() == r.len(),
{
    let s = ids(r);
    assert(s.no_duplicates()) by {
        assert forall|a: int, b: int| 0 <= a < s.len() && 0 <= b < s.len() && a != b implies s[a]
            != s[b] by {
            if a < b {
                assert(r[a].id < r[b].id);
            } else {
                assert(r[b].id < r[a].id);
            }
        }
    }
    s.unique_seq_to_set();
}

/// In id-sorted lists with the same ids, an id sits at the same position.
proof fn lemma_sorted_same_ids_same_position(r1: Seq<LoopRecord>, r2: Seq<LoopRecord>, k: int)
    requires
        forall|a: int, b: int| 0 <= a < b < r1.len() ==> r1[a].id < r1[b].id,
        forall|a: int, b: int| 0 <= a < b < r2.len() ==> r2[a].id < r2[b].id,
        forall|q: int| 0 <= q < r1.len() ==> has_id(r2, #[trigger] r1[q].id),
        forall|q: int| 0 <= q < r2.len() ==> has_id(r1, #[trigger] r2[q].id),
        r1.len() == r2.len(),
        0 <= k < r1.len(),
    ensures
        r1[k].id == r2[k].id,
{
    let q = choose|q: int| 0 <= q < r2.len() && #[trigger] r2[q].id == r1[k].id;
    if q != k {
        let (a1, a2, hi, lo) = if q < k {
            (r1, r2, k, q)
        } else {
            (r2, r1, q, k)
        };
        // a1[0..=hi] holds hi+1 ids, all at most a1[hi].id, but a2 holds only
        // lo+1 ids up to that value.
        let t1 = a1.take(hi + 1);
        let t2 = a2.take(lo + 1);
        assert(forall|x: int, y: int| 0 <= x < y < t1.len() ==> t1[x].id < t1[y].id);
        assert(forall|x: int, y: int| 0 <= x < y < t2.len() ==> t2[x].id < t2[y].id);
        lemma_ids_set_len(t1);
        lemma_ids_set_len(t2);
        let s1 = ids(t1).to_set();
        let s2 = ids(t2).to_set();
        assert(a1[hi].id == a2[lo].id);
        assert(s1.subset_of(s2)) by {
            assert forall|id: u64| s1.contains(id) implies s2.contains(id) by {
                let x = choose|x: int| 0 <= x < ids(t1).len() && #[trigger] ids(t1)[x] == id;
                assert(t1[x] == a1[x]);
                assert(has_id(a2, a1[x].id));
                let y = choose|y: int| 0 <= y < a2.len() && #[trigger] a2[y].id == a1[x].id;
                if y > lo {
                    assert(a2[lo].id < a2[y].id);
                    if x < hi {
                        assert(a1[x].id < a1[hi].id);
                    }
                }
                assert(t2[y] == a2[y]);
                assert(ids(t2)[y] == id);
            }
        }
        vstd::set_lib::lemma_len_subset(s1, s2);
    }
}

/// Law: once the entry that `resolve` returns is appended to a log, that loop's
/// current status is resolved, it no longer shows among the open loops, and a
/// second resolve returns nothing.
pub proof fn lemma_resolve_closes(
    rs: Seq<LoopRecord>,
    id: u64,
    ts_ms: u64,
    ts2: u64,
    open: Seq<LoopRecord>,
)
    requires
        forall|i: int| 0 <= i < rs.len() ==> text_fits(#[trigger] rs[i]),
        closing_entry(log_entries(magic() + entries_bytes(rs)), id, ts_ms, 1) is Some,
        text_fits(closing_entry(log_entries(magic() + entries_bytes(rs)), id, ts_ms, 1)->0),
        is_open_list(
            open,
            log_entries(
                magic() + entries_bytes(rs) + entry_bytes(
                    closing_entry(log_entries(magic() + entries_bytes(rs)), id, ts_ms, 1)->0,
                ),
            ),
        ),
    ensures
        ({
            let log2 = log_entries(
                magic() + entries_bytes(rs) + entry_bytes(
                    closing_entry(log_entries(magic() + entries_bytes(rs)), id, ts_ms, 1)->0,
                ),
            );
            &&& log2[last_index(log2, id)].status == 1
            &&& forall|k: int| 0 <= k < open.len() ==> #[trigger] open[k].id != id
            &&& closing_entry(log2, id, ts2, 1) is None
        }),
{
    lemma_log_roundtrip(rs);
    let e = closing_entry(rs, id, ts_ms, 1)->0;
    lemma_log_append(rs, e);
    let log2 = rs.push(e);
    lemma_last_index_push(rs, e, id);
    assert(log2[rs.len() as int] == e);
}

// ─── New loops ──────────────────────────────────────

/// The next id from the text of the id file: one more than the number it holds
/// (surrounding whitespace ignored), or 1 when it holds no number.
pub open spec fn next_id_spec(idx_text: Seq<char>) -> u64 {
    match parse_u64_spec(trim(idx_text)) {
        Some(n) => (n + 1) as u64,
        None => 1,
    }
}

/// Returns the next available id (max+1), starting at 1, from the text of
/// `open_loops.idx` (empty when the file is missing).
pub fn next_id(idx_text: &str) -> (r: u64)
    requires
        parse_u64_spec(trim(idx_text@)) != Some(0xffff_ffff_ffff_ffffu64),
    ensures
        r == next_id_spec(idx_text@),
{
    match parse_trimmed_u64(idx_text) {
        Some(n) => n + 1,
        None => 1,
    }
}

/// What adding a new open loop writes.
pub struct NewLoop {
    /// The id assigned to the loop.
    pub id: u64,
    /// The new entry.
    pub entry: OpenLoopEntry,
    /// Bytes to append to the log file.
    pub log_bytes: Vec<u8>,
    /// New contents of the id file.
    pub idx_text: String,
}

/// Append a new loop: assigns the next id, builds its open entry stamped
/// `ts_ms`, the bytes to append to the log (with the header when the log is
/// empty or missing) and the new id file text `"{id}\n"`.
pub fn append_open(idx_text: &str, log_is_empty: bool, ts_ms: u64, text: &str, importance: u8) -> (r:
    NewLoop)
    requires
        parse_u64_spec(trim(idx_text@)) != Some(0xffff_ffff_ffff_ffffu64),
    ensures
        r.id == next_id_spec(idx_text@),
        r.entry@ == (LoopRecord {
            id: r.id,
            ts_ms: ts_ms,
            importance: importance,
            status: 0,
            text: text@,
        }),
        r.log_bytes@ == (if log_is_empty {
            magic()
        } else {
            Seq::empty()
        }) + entry_bytes(r.entry@),
        r.idx_text@ == decimal(r.id as nat).push('\n'),
{
    let id = next_id(idx_text);
    let entry = OpenLoopEntry {
        id,
        ts_ms,
        importance,
        status: STATUS_OPEN,
        text: text.to_owned(),
    };
    let log_bytes = encode_entry(&entry, log_is_empty);
    let mut idx = String::new();
    push_decimal(&mut idx, id);
    string_push(&mut idx, '\n');
    assert(idx@ =~= decimal(id as nat).push('\n'));
    NewLoop { id, entry, log_bytes, idx_text: idx }
}

/// The id file holds the largest `u64`, which has no next id.
pub open spec fn ids_exhausted(idx_text: Seq<char>) -> bool {
    parse_u64_spec(trim(idx_text)) == Some(0xffff_ffff_ffff_ffffu64)
}

/// As `append_open`, for any id file: `None` when the id file holds the
/// largest `u64`, whose next id does not fit; otherwise the new loop.
pub fn try_append_open(idx_text: &str, log_is_empty: bool, ts_ms: u64, text: &str, importance: u8) -> (r:
    Option<NewLoop>)
    ensures
        r is None <==> ids_exhausted(idx_text@),
        r matches Some(nl) ==> {
            &&& nl.id == next_id_spec(idx_text@)
            &&& nl.entry@ == (LoopRecord {
                id: nl.id,
                ts_ms: ts_ms,
                importance: importance,
                status: 0,
                text: text@,
            })
            &&& nl.log_bytes@ == (if log_is_empty {
                magic()
            } else {
                Seq::empty()
            }) + entry_bytes(nl.entry@)
            &&& nl.idx_text@ == decimal(nl.id as nat).push('\n')
        },
{
    if parse_trimmed_u64(idx_text) == Some(0xffff_ffff_ffff_ffffu64) {
        return None;
    }
    Some(append_open(idx_text, log_is_empty, ts_ms, text, importance))
}

/// Copy of an entry.
pub fn copy_entry(e: &OpenLoopEntry) -> (r: OpenLoopEntry)
    ensures
        r@ == e@,
{
    OpenLoopEntry {
        id: e.id,
        ts_ms: e.ts_ms,
        importance: e.importance,
        status: e.status,
        text: e.text.clone(),
    }
}

/// The bytes that appending `entry` writes to the log; `needs_magic` when the
/// log file is missing or empty, which puts the header first.
pub fn encode_entry(entry: &OpenLoopEntry, needs_magic: bool) -> (r: Vec<u8>)
    ensures
        r@ == (if needs_magic {
            magic()
        } else {
            Seq::empty()
        }) + entry_bytes(entry@),
{
    let mut buf: Vec<u8> = Vec::new();
    if needs_magic {
        buf.push(0x4f);
        buf.push(0x50);
        buf.push(0x4c);
        buf.push(0x31);
    }
    let ghost start = buf@;
    assert(start =~= (if needs_magic {
        magic()
    } else {
        Seq::empty()
    }));
    let bytes: &[u8] = entry.text.as_str().as_bytes();
    let n: usize = bytes.len();
    let len: usize = if n < MAX_TEXT_LEN {
        n
    } else {
        MAX_TEXT_LEN
    };
    push_le(&mut buf, entry.id, 8);
    push_le(&mut buf, entry.ts_ms, 8);
    buf.push(entry.importance);
    buf.push(entry.status);
    push_le(&mut buf, len as u64, 4);
    let ghost mid = buf@;
    let mut i: usize = 0;
    while i < len
        invariant
            i <= len <= n,
            n == bytes@.len(),
            buf@ =~= mid + bytes@.take(i as int),
        decreases len - i,
    {
        buf.push(bytes[i]);
        i = i + 1;
    }
    assert(buf@ =~= start + entry_bytes(entry@));
    buf
}

/// Read all entries of a log (raw: an id appears once per write).
pub fn read_all(data: &[u8]) -> (r: Vec<OpenLoopEntry>)
    ensures
        records(r@) == log_entries(data@),
{
    let len: usize = data.len();
    let mut entries: Vec<OpenLoopEntry> = Vec::new();
    if len < 4 || data[0] != 0x4f || data[1] != 0x50 || data[2] != 0x4c || data[3] != 0x31 {
        proof {
            if len >= 4 {
                assert(data@.subrange(0, 4) != magic()) by {
                    if data@.subrange(0, 4) == magic() {
                        assert(data@.subrange(0, 4)[0] == data@[0]);
                        assert(data@.subrange(0, 4)[1] == data@[1]);
                        assert(data@.subrange(0, 4)[2] == data@[2]);
                        assert(data@.subrange(0, 4)[3] == data@[3]);
                    }
                }
            }
        }
        assert(records(entries@) =~= Seq::<LoopRecord>::empty());
        return entries;
    }
    assert(data@.subrange(0, 4) =~= magic());
    let mut pos: usize = 4;
    assert(records(entries@) + parse_entries(data@, 4) =~= parse_entries(data@, 4));
    loop
        invariant
            4 <= pos <= len,
            len == data@.len(),
            records(entries@) + parse_entries(data@, pos as int) == parse_entries(data@, 4),
        ensures
            records(entries@) == parse_entries(data@, 4),
        decreases len - pos,
    {
        if len - pos < 22 {
            assert(parse_entries(data@, pos as int) =~= Seq::<LoopRecord>::empty());
            assert(records(entries@) + Seq::<LoopRecord>::empty() =~= records(entries@));
            break;
        }
        let id: u64 = read_le(data, pos, 8);
        let ts_ms: u64 = read_le(data, pos + 8, 8);
        let importance: u8 = data[pos + 16];
        let status: u8 = data[pos + 17];
        let tl: u64 = read_le(data, pos + 18, 4);
        let rest: usize = len - pos - 22;
        if tl > rest as u64 {
            assert(parse_entries(data@, pos as int) =~= Seq::<LoopRecord>::empty());
            assert(records(entries@) + Seq::<LoopRecord>::empty() =~= records(entries@));
            break;
        }
        let t: usize = tl as usize;
        let start: usize = pos + 22;
        let text = lossy_string(slice_range(data, start, start + t));
        let e = OpenLoopEntry { id, ts_ms, importance, status, text };
        let ghost next = parse_entries(data@, (pos + 22 + t) as int);
        assert(parse_entries(data@, pos as int) == seq![e@] + next);
        let ghost prev = entries@;
        entries.push(e);
        assert(records(entries@) =~= records(prev).push(e@));
        assert(records(entries@) + next =~= records(prev) + (seq![e@] + next));
        pos = start + t;
    }
    assert(data@.subrange(0, 4) =~= magic());
    entries
}

/// The bytes `data[from..to]`.
fn slice_range(data: &[u8], from: usize, to: usize) -> (r: &[u8])
    requires
        from <= to <= data@.len(),
    ensures
        r@ == data@.subrange(from as int, to as int),
{
    vstd::slice::slice_subrange(data, from, to)
}

} // verus!
