//! The append log: memories stored since the last index build.
//!
//! Formats, little-endian, one entry after another:
//! - legacy (no magic): [u32 len][u8 layer][u8 importance][f32 x][f32 y][f32 z][text]
//! - `APv2`: [u32 len][u8 layer][u8 importance][u8 depth][f32 x][f32 y][f32 z][text]
//! - `APv3`: as `APv2` with a 16-byte project id between depth and coordinates.
//!
//! Legacy entries have depth 4; entries without a project id belong to the
//! global project. Coordinates are carried as `f32` bit patterns.
use vstd::prelude::*;
use crate::codec::{
    le_bytes, le_value, lemma_le_bytes_len, lemma_le_value_of_bytes, lemma_pow256_values, push_le,
    read_le, u32_at,
};
use crate::text::lossy_text;
use crate::text::lossy_string;

verus! {

/// One stored memory read back from the append log.
#[derive(Clone, Debug)]
pub struct AppendEntry {
    pub text: String,
    pub layer_id: u8,
    pub importance: u8,
    pub depth: u8,
    /// The project the entry belongs to; `None` for the global project.
    pub project_id: Option<[u8; 16]>,
    pub x_bits: u32,
    pub y_bits: u32,
    pub z_bits: u32,
}

/// Mathematical value of an entry.
pub struct AppendRecord {
    pub text: Seq<char>,
    pub layer_id: u8,
    pub importance: u8,
    pub depth: u8,
    pub project_id: Option<Seq<u8>>,
    pub x_bits: u32,
    pub y_bits: u32,
    pub z_bits: u32,
}

impl View for AppendEntry {
    type V = AppendRecord;

    open spec fn view(&self) -> AppendRecord {
        AppendRecord {
            text: self.text@,
            layer_id: self.layer_id,
            importance: self.importance,
            depth: self.depth,
            project_id: match self.project_id {
                Some(p) => Some(p@),
                None => None,
            },
            x_bits: self.x_bits,
            y_bits: self.y_bits,
            z_bits: self.z_bits,
        }
    }
}

/// Values of a sequence of entries.
pub open spec fn append_records(v: Seq<AppendEntry>) -> Seq<AppendRecord> {
    v.map_values(|e: AppendEntry| e@)
}

/// The two formats new entries are written in.
#[derive(Clone, Copy, Debug, PartialEq, Eq, Structural)]
pub enum AppendFormat {
    V2,
    V3,
}

pub open spec fn v2_magic() -> Seq<u8> {
    seq![0x41u8, 0x50u8, 0x76u8, 0x32u8]
}

pub open spec fn v3_magic() -> Seq<u8> {
    seq![0x41u8, 0x50u8, 0x76u8, 0x33u8]
}

// ─── Reading ────────────────────────────────────────

/// Version of a log: 3 for `APv3`, 2 for `APv2`, 1 (legacy) otherwise.
pub open spec fn log_version(d: Seq<u8>) -> nat {
    if d.len() >= 4 && d.subrange(0, 4) == v3_magic() {
        3
    } else if d.len() >= 4 && d.subrange(0, 4) == v2_magic() {
        2
    } else {
        1
    }
}

/// Bytes of an entry before its text.
pub open spec fn header_size(v: nat) -> nat {
    if v == 3 {
        35
    } else if v == 2 {
        19
    } else {
        18
    }
}

/// Offset of the coordinates within an entry.
pub open spec fn coords_offset(v: nat) -> int {
    if v == 3 {
        23
    } else if v == 2 {
        7
    } else {
        6
    }
}

/// The entry that starts `s`, in a log of version `v`.
pub open spec fn entry_at(s: Seq<u8>, v: nat) -> AppendRecord {
    let hs = header_size(v);
    let len = le_value(s.subrange(0, 4));
    let c = coords_offset(v);
    AppendRecord {
        text: lossy_text(s.subrange(hs as int, (hs + len) as int)),
        layer_id: s[4],
        importance: s[5],
        depth: if v >= 2 {
            s[6]
        } else {
            4
        },
        project_id: if v == 3 {
            Some(s.subrange(7, 23))
        } else {
            None
        },
        x_bits: u32_at(s, c),
        y_bits: u32_at(s, c + 4),
        z_bits: u32_at(s, c + 8),
    }
}

/// The entries of `s`, read while a whole header and its text remain.
pub open spec fn parse_entries(s: Seq<u8>, v: nat) -> Seq<AppendRecord>
    decreases s.len(),
{
    let hs = header_size(v);
    if s.len() < hs {
        Seq::empty()
    } else {
        let len = le_value(s.subrange(0, 4));
        if hs + len > s.len() {
            Seq::empty()
        } else {
            seq![entry_at(s, v)] + parse_entries(s.subrange((hs + len) as int, s.len() as int), v)
        }
    }
}

/// The entries an append log holds.
pub open spec fn log_entries(d: Seq<u8>) -> Seq<AppendRecord> {
    let v = log_version(d);
    let start: int = if v > 1 {
        4
    } else {
        0
    };
    parse_entries(d.subrange(start, d.len() as int), v)
}

fn starts_with4(data: &[u8], a: u8, b: u8, c: u8, d: u8) -> (r: bool)
    ensures
        r == (data@.len() >= 4 && data@.subrange(0, 4) == seq![a, b, c, d]),
{
    if data.len() < 4 {
        return false;
    }
    let r = data[0] == a && data[1] == b && data[2] == c && data[3] == d;
    proof {
        if data@.subrange(0, 4) == seq![a, b, c, d] {
            assert(data@.subrange(0, 4)[0] == data@[0]);
            assert(data@.subrange(0, 4)[1] == data@[1]);
            assert(data@.subrange(0, 4)[2] == data@[2]);
            assert(data@.subrange(0, 4)[3] == data@[3]);
        }
        if r {
            assert(data@.subrange(0, 4) =~= seq![a, b, c, d]);
        }
    }
    r
}

/// The entries of an append log.
pub fn read_append_log(data: &[u8]) -> (r: Vec<AppendEntry>)
    ensures
        append_records(r@) == log_entries(data@),
{
    let len: usize = data.len();
    let is_v3 = starts_with4(data, 0x41, 0x50, 0x76, 0x33);
    let is_v2 = starts_with4(data, 0x41, 0x50, 0x76, 0x32);
    proof {
        assert(v2_magic() != v3_magic()) by {
            assert(v2_magic()[3] != v3_magic()[3]);
        }
    }
    let ghost v = log_version(data@);
    let start: usize = if is_v2 || is_v3 {
        4
    } else {
        0
    };
    let hs: usize = if is_v3 {
        35
    } else if is_v2 {
        19
    } else {
        18
    };
    let cs: usize = if is_v3 {
        23
    } else if is_v2 {
        7
    } else {
        6
    };
    assert(hs == header_size(v) && cs == coords_offset(v));
    let ghost all = log_entries(data@);
    let mut out: Vec<AppendEntry> = Vec::new();
    let mut pos: usize = start;
    assert(append_records(out@) + parse_entries(data@.subrange(pos as int, len as int), v) =~= all);
    loop
        invariant
            start <= pos <= len,
            len == data@.len(),
            hs == header_size(v),
            cs == coords_offset(v),
            v == log_version(data@),
            is_v3 == (v == 3),
            is_v2 == (v == 2),
            all == log_entries(data@),
            append_records(out@) + parse_entries(data@.subrange(pos as int, len as int), v) == all,
        ensures
            append_records(out@) == all,
        decreases len - pos,
    {
        let ghost s = data@.subrange(pos as int, len as int);
        if len - pos < hs {
            assert(parse_entries(s, v) =~= Seq::<AppendRecord>::empty());
            assert(append_records(out@) + Seq::<AppendRecord>::empty() =~= append_records(out@));
            break;
        }
        let l64: u64 = read_le(data, pos, 4);
        assert(s.subrange(0, 4) =~= data@.subrange(pos as int, pos + 4));
        proof {
            crate::codec::lemma_le_value_bound(data@.subrange(pos as int, pos + 4));
            lemma_pow256_values();
        }
        if l64 > (len - pos - hs) as u64 {
            assert(parse_entries(s, v) =~= Seq::<AppendRecord>::empty());
            assert(append_records(out@) + Seq::<AppendRecord>::empty() =~= append_records(out@));
            break;
        }
        let l: usize = l64 as usize;
        let depth: u8 = if is_v2 || is_v3 {
            data[pos + 6]
        } else {
            4
        };
        let project_id: Option<[u8; 16]> = if is_v3 {
            let mut pid: [u8; 16] = [0u8; 16];
            let mut k: usize = 0;
            while k < 16
                invariant
                    k <= 16,
                    pos + 35 <= len,
                    len == data@.len(),
                    forall|m: int| 0 <= m < k ==> pid@[m] == data@[pos + 7 + m],
                decreases 16 - k,
            {
                pid[k] = data[pos + 7 + k];
                k = k + 1;
            }
            assert(pid@ =~= s.subrange(7, 23));
            Some(pid)
        } else {
            None
        };
        let x: u64 = read_le(data, pos + cs, 4);
        let y: u64 = read_le(data, pos + cs + 4, 4);
        let z: u64 = read_le(data, pos + cs + 8, 4);
        assert(s.subrange(cs as int, cs + 4) =~= data@.subrange(pos + cs, pos + cs + 4));
        assert(s.subrange(cs + 4, cs + 8) =~= data@.subrange(pos + cs + 4, pos + cs + 8));
        assert(s.subrange(cs + 8, cs + 12) =~= data@.subrange(pos + cs + 8, pos + cs + 12));
        proof {
            crate::codec::lemma_le_value_bound(data@.subrange(pos + cs, pos + cs + 4));
            crate::codec::lemma_le_value_bound(data@.subrange(pos + cs + 4, pos + cs + 8));
            crate::codec::lemma_le_value_bound(data@.subrange(pos + cs + 8, pos + cs + 12));
        }
        let text = lossy_string(vstd::slice::slice_subrange(data, pos + hs, pos + hs + l));
        assert(s.subrange(hs as int, hs + l) =~= data@.subrange(pos + hs, pos + hs + l));
        let e = AppendEntry {
            text,
            layer_id: data[pos + 4],
            importance: data[pos + 5],
            depth,
            project_id,
            x_bits: x as u32,
            y_bits: y as u32,
            z_bits: z as u32,
        };
        assert(e@ == entry_at(s, v));
        let ghost prev = out@;
        out.push(e);
        assert(s.subrange(hs + l, s.len() as int) =~= data@.subrange(pos + hs + l, len as int));
        assert(parse_entries(s, v) == seq![entry_at(s, v)] + parse_entries(
            data@.subrange(pos + hs + l, len as int),
            v,
        ));
        assert(append_records(out@) =~= append_records(prev).push(e@));
        assert(append_records(out@) + parse_entries(data@.subrange(pos + hs + l, len as int), v)
            =~= append_records(prev) + parse_entries(s, v));
        pos = pos + hs + l;
    }
    out
}

// ─── Writing ────────────────────────────────────────

/// The format new entries take in a log: that of an `APv2` log, else `APv3`
/// (a legacy log too gets `APv3` entries).
pub open spec fn format_of(d: Seq<u8>) -> AppendFormat {
    if log_version(d) == 2 {
        AppendFormat::V2
    } else {
        AppendFormat::V3
    }
}

/// The format to append in, read from the log's current bytes.
pub fn append_format(existing: &[u8]) -> (r: AppendFormat)
    ensures
        r == format_of(existing@),
{
    if starts_with4(existing, 0x41, 0x50, 0x76, 0x33) {
        AppendFormat::V3
    } else if starts_with4(existing, 0x41, 0x50, 0x76, 0x32) {
        AppendFormat::V2
    } else {
        AppendFormat::V3
    }
}

/// Bytes of one entry; the text length is written modulo 2^32.
pub open spec fn entry_bytes(
    layer_id: u8,
    importance: u8,
    depth: u8,
    project_id: Seq<u8>,
    x_bits: u32,
    y_bits: u32,
    z_bits: u32,
    text: Seq<u8>,
    format: AppendFormat,
) -> Seq<u8> {
    le_bytes(text.len() % 0x1_0000_0000, 4) + seq![layer_id, importance, depth] + (if format
        == AppendFormat::V3 {
        project_id
    } else {
        Seq::empty()
    }) + le_bytes(x_bits as nat, 4) + le_bytes(y_bits as nat, 4) + le_bytes(z_bits as nat, 4) + text
}

fn push_bytes(buf: &mut Vec<u8>, bytes: &[u8])
    ensures
        final(buf)@ == old(buf)@ + bytes@,
{
    let ghost start = buf@;
    let n: usize = bytes.len();
    let mut i: usize = 0;
    while i < n
        invariant
            i <= n,
            n == bytes@.len(),
            buf@ == start + bytes@.take(i as int),
        decreases n - i,
    {
        buf.push(bytes[i]);
        assert(bytes@.take(i + 1) =~= bytes@.take(i as int).push(bytes@[i as int]));
        assert(buf@ =~= start + bytes@.take(i + 1));
        i = i + 1;
    }
    assert(bytes@.take(n as int) =~= bytes@);
}

/// One entry in the given format.
pub fn encode_append_entry(
    layer_id: u8,
    importance: u8,
    depth: u8,
    project_id: &[u8; 16],
    x_bits: u32,
    y_bits: u32,
    z_bits: u32,
    text_bytes: &[u8],
    format: AppendFormat,
) -> (r: Vec<u8>)
    ensures
        r@ == entry_bytes(
            layer_id,
            importance,
            depth,
            project_id@,
            x_bits,
            y_bits,
            z_bits,
            text_bytes@,
            format,
        ),
{
    let mut buf: Vec<u8> = Vec::new();
    let len: u64 = (text_bytes.len() as u64) % 0x1_0000_0000;
    push_le(&mut buf, len, 4);
    buf.push(layer_id);
    buf.push(importance);
    buf.push(depth);
    if format == AppendFormat::V3 {
        push_bytes(&mut buf, project_id.as_slice());
    }
    push_le(&mut buf, x_bits as u64, 4);
    push_le(&mut buf, y_bits as u64, 4);
    push_le(&mut buf, z_bits as u64, 4);
    push_bytes(&mut buf, text_bytes);
    let ghost pid = if format == AppendFormat::V3 {
        project_id@
    } else {
        Seq::<u8>::empty()
    };
    assert(buf@ =~= entry_bytes(
        layer_id,
        importance,
        depth,
        project_id@,
        x_bits,
        y_bits,
        z_bits,
        text_bytes@,
        format,
    ));
    buf
}

/// What storing an entry appends to a log holding `d`: an empty log first
/// gets the `APv3` magic; the entry takes the log's format.
pub open spec fn log_addition(
    d: Seq<u8>,
    layer_id: u8,
    importance: u8,
    depth: u8,
    project_id: Seq<u8>,
    x_bits: u32,
    y_bits: u32,
    z_bits: u32,
    text: Seq<u8>,
) -> Seq<u8> {
    if d.len() == 0 {
        v3_magic() + entry_bytes(
            layer_id,
            importance,
            depth,
            project_id,
            x_bits,
            y_bits,
            z_bits,
            text,
            AppendFormat::V3,
        )
    } else {
        entry_bytes(
            layer_id,
            importance,
            depth,
            project_id,
            x_bits,
            y_bits,
            z_bits,
            text,
            format_of(d),
        )
    }
}

/// The bytes to append to a log holding `existing` to store one entry.
pub fn append_log_bytes(
    existing: &[u8],
    layer_id: u8,
    importance: u8,
    depth: u8,
    project_id: &[u8; 16],
    x_bits: u32,
    y_bits: u32,
    z_bits: u32,
    text_bytes: &[u8],
) -> (r: Vec<u8>)
    ensures
        r@ == log_addition(
            existing@,
            layer_id,
            importance,
            depth,
            project_id@,
            x_bits,
            y_bits,
            z_bits,
            text_bytes@,
        ),
{
    if existing.len() == 0 {
        let mut out: Vec<u8> = Vec::new();
        out.push(0x41);
        out.push(0x50);
        out.push(0x76);
        out.push(0x33);
        let mut e = encode_append_entry(
            layer_id,
            importance,
            depth,
            project_id,
            x_bits,
            y_bits,
            z_bits,
            text_bytes,
            AppendFormat::V3,
        );
        let ghost m = out@;
        let ghost eb = e@;
        out.append(&mut e);
        assert(m =~= v3_magic());
        assert(out@ =~= m + eb);
        out
    } else {
        let format = append_format(existing);
        encode_append_entry(
            layer_id,
            importance,
            depth,
            project_id,
            x_bits,
            y_bits,
            z_bits,
            text_bytes,
            format,
        )
    }
}

// ─── Laws ───────────────────────────────────────────

/// The entries of `s` use up all its bytes.
pub open spec fn parses_fully(s: Seq<u8>, v: nat) -> bool
    decreases s.len(),
{
    if s.len() == 0 {
        true
    } else if s.len() < header_size(v) {
        false
    } else {
        let len = le_value(s.subrange(0, 4));
        if header_size(v) + len > s.len() {
            false
        } else {
            parses_fully(s.subrange((header_size(v) + len) as int, s.len() as int), v)
        }
    }
}

/// Entries read from a fully parsed prefix are followed by those of the rest.
pub proof fn lemma_parse_concat(s: Seq<u8>, t: Seq<u8>, v: nat)
    requires
        parses_fully(s, v),
        v >= 1,
    ensures
        parse_entries(s + t, v) == parse_entries(s, v) + parse_entries(t, v),
    decreases s.len(),
{
    if s.len() == 0 {
        assert(s + t =~= t);
        assert(parse_entries(s, v) =~= Seq::<AppendRecord>::empty());
        assert(Seq::<AppendRecord>::empty() + parse_entries(t, v) =~= parse_entries(t, v));
    } else {
        let hs = header_size(v);
        let len = le_value(s.subrange(0, 4));
        let u = s + t;
        assert(u.subrange(0, 4) =~= s.subrange(0, 4));
        let k = (hs + len) as int;
        let rest = s.subrange(k, s.len() as int);
        assert(u.subrange(k, u.len() as int) =~= rest + t);
        lemma_parse_concat(rest, t, v);
        assert(entry_at(u, v) == entry_at(s, v)) by {
            assert(u.subrange(hs as int, k) =~= s.subrange(hs as int, k));
            let c = coords_offset(v);
            assert(u.subrange(c, c + 4) =~= s.subrange(c, c + 4));
            assert(u.subrange(c + 4, c + 8) =~= s.subrange(c + 4, c + 8));
            assert(u.subrange(c + 8, c + 12) =~= s.subrange(c + 8, c + 12));
            if v == 3 {
                assert(u.subrange(7, 23) =~= s.subrange(7, 23));
            }
        }
        assert(parse_entries(u, v) =~= parse_entries(s, v) + parse_entries(t, v));
    }
}

/// The record an entry written in `format` reads back as.
pub open spec fn written_record(
    layer_id: u8,
    importance: u8,
    depth: u8,
    project_id: Seq<u8>,
    x_bits: u32,
    y_bits: u32,
    z_bits: u32,
    text: Seq<u8>,
    format: AppendFormat,
) -> AppendRecord {
    AppendRecord {
        text: lossy_text(text),
        layer_id,
        importance,
        depth,
        project_id: if format == AppendFormat::V3 {
            Some(project_id)
        } else {
            None
        },
        x_bits,
        y_bits,
        z_bits,
    }
}

/// A single written entry parses fully and reads back as its record.
pub proof fn lemma_entry_reads_back(
    layer_id: u8,
    importance: u8,
    depth: u8,
    project_id: Seq<u8>,
    x_bits: u32,
    y_bits: u32,
    z_bits: u32,
    text: Seq<u8>,
    format: AppendFormat,
)
    requires
        project_id.len() == 16,
        text.len() < 0x1_0000_0000,
    ensures
        ({
            let e = entry_bytes(layer_id, importance, depth, project_id, x_bits, y_bits, z_bits, text, format);
            let v: nat = if format == AppendFormat::V3 {
                3
            } else {
                2
            };
            &&& parses_fully(e, v)
            &&& parse_entries(e, v) == seq![
                written_record(layer_id, importance, depth, project_id, x_bits, y_bits, z_bits, text, format),
            ]
        }),
{
    let e = entry_bytes(layer_id, importance, depth, project_id, x_bits, y_bits, z_bits, text, format);
    let v: nat = if format == AppendFormat::V3 {
        3
    } else {
        2
    };
    let hs = header_size(v);
    lemma_pow256_values();
    lemma_le_bytes_len(text.len() % 0x1_0000_0000, 4);
    lemma_le_bytes_len(x_bits as nat, 4);
    lemma_le_bytes_len(y_bits as nat, 4);
    lemma_le_bytes_len(z_bits as nat, 4);
    assert(text.len() % 0x1_0000_0000 == text.len());
    assert(e.subrange(0, 4) =~= le_bytes(text.len() as nat, 4));
    lemma_le_value_of_bytes(text.len() as nat, 4);
    assert(e.len() == hs + text.len());
    let c = coords_offset(v);
    assert(e.subrange(c, c + 4) =~= le_bytes(x_bits as nat, 4));
    assert(e.subrange(c + 4, c + 8) =~= le_bytes(y_bits as nat, 4));
    assert(e.subrange(c + 8, c + 12) =~= le_bytes(z_bits as nat, 4));
    lemma_le_value_of_bytes(x_bits as nat, 4);
    lemma_le_value_of_bytes(y_bits as nat, 4);
    lemma_le_value_of_bytes(z_bits as nat, 4);
    assert(e.subrange(hs as int, (hs + text.len()) as int) =~= text);
    if format == AppendFormat::V3 {
        assert(e.subrange(7, 23) =~= project_id);
    }
    let rest = e.subrange((hs + text.len()) as int, e.len() as int);
    assert(rest =~= Seq::<u8>::empty());
    assert(parse_entries(rest, v) =~= Seq::<AppendRecord>::empty());
    assert(parses_fully(rest, v));
    assert(parses_fully(e, v));
    assert(entry_at(e, v) == written_record(
        layer_id,
        importance,
        depth,
        project_id,
        x_bits,
        y_bits,
        z_bits,
        text,
        format,
    ));
    assert(parse_entries(e, v) =~= seq![
        written_record(layer_id, importance, depth, project_id, x_bits, y_bits, z_bits, text, format),
    ]);
}

/// Law: storing an entry in an append log that is empty or a well-formed
/// `APv2`/`APv3` log leaves the entries already there unchanged and adds one
/// that reads back with the stored fields; its text is the stored bytes
/// decoded (exactly the stored text when the bytes are UTF-8), and it keeps
/// its project id when the log is `APv3`.
pub proof fn lemma_append_reads_back(
    d: Seq<u8>,
    layer_id: u8,
    importance: u8,
    depth: u8,
    project_id: Seq<u8>,
    x_bits: u32,
    y_bits: u32,
    z_bits: u32,
    text: Seq<u8>,
)
    requires
        project_id.len() == 16,
        text.len() < 0x1_0000_0000,
        d.len() == 0 || (log_version(d) >= 2 && parses_fully(d.subrange(4, d.len() as int), log_version(d))),
    ensures
        log_entries(d + log_addition(d, layer_id, importance, depth, project_id, x_bits, y_bits, z_bits, text))
            == log_entries(d).push(
            written_record(
                layer_id,
                importance,
                depth,
                project_id,
                x_bits,
                y_bits,
                z_bits,
                text,
                if d.len() == 0 {
                    AppendFormat::V3
                } else {
                    format_of(d)
                },
            ),
        ),
{
    let fmt = if d.len() == 0 {
        AppendFormat::V3
    } else {
        format_of(d)
    };
    let e = entry_bytes(layer_id, importance, depth, project_id, x_bits, y_bits, z_bits, text, fmt);
    let rec = written_record(layer_id, importance, depth, project_id, x_bits, y_bits, z_bits, text, fmt);
    let v: nat = if fmt == AppendFormat::V3 {
        3
    } else {
        2
    };
    lemma_entry_reads_back(layer_id, importance, depth, project_id, x_bits, y_bits, z_bits, text, fmt);
    assert(v2_magic() != v3_magic()) by {
        assert(v2_magic()[3] != v3_magic()[3]);
    }
    if d.len() == 0 {
        let all = d + (v3_magic() + e);
        assert(all.subrange(0, 4) =~= v3_magic());
        assert(log_version(all) == 3);
        assert(all.subrange(4, all.len() as int) =~= e);
        assert(log_entries(d) =~= Seq::<AppendRecord>::empty()) by {
            assert(d.subrange(0, 0) =~= Seq::<u8>::empty());
            assert(parse_entries(Seq::<u8>::empty(), 1) =~= Seq::<AppendRecord>::empty());
        }
        assert(Seq::<AppendRecord>::empty().push(rec) =~= seq![rec]);
    } else {
        let all = d + e;
        assert(all.subrange(0, 4) =~= d.subrange(0, 4));
        assert(log_version(all) == log_version(d));
        assert(log_version(d) == v);
        let body = d.subrange(4, d.len() as int);
        assert(all.subrange(4, all.len() as int) =~= body + e);
        lemma_parse_concat(body, e, v);
        assert(parse_entries(body, v) + seq![rec] =~= parse_entries(body, v).push(rec));
    }
}

} // verus!
